//! The switches that change how fast a hash is, and never what it is.
use crate::text::same_text;
use vstd::prelude::*;

verus! {

/// How a hasher goes about its work. Every setting gives the same digests.
#[derive(Clone, Copy)]
pub struct Tuning {
    /// Let the four chains of a single-lane walk move side by side.
    pub gather: bool,
    /// Touch the words of coming turns ahead of time.
    pub prefetch: bool,
    /// Use the unrolled kernel for batches of two lanes.
    pub pair_kernel: bool,
}

/// Whether a setting is present and spelled exactly `wanted`.
pub open spec fn is_set(setting: Option<&str>, wanted: &str) -> bool {
    setting matches Some(text) && text@ == wanted@
}

/// A setting that is missing switches nothing on, and one that is present does
/// where it is what is wanted to the letter.
pub proof fn law_setting_is_taken_to_the_letter(text: &str, wanted: &str)
    ensures
        !is_set(None, wanted),
        is_set(Some(text), wanted) <==> text@.len() == wanted@.len() && forall|i: int|
            0 <= i < text@.len() ==> #[trigger] text@[i] == wanted@[i],
{
    if text@.len() == wanted@.len() && forall|i: int|
        0 <= i < text@.len() ==> #[trigger] text@[i] == wanted@[i] {
        assert(text@ =~= wanted@);
    }
}

/// Whether a setting is present and spelled exactly `wanted`.
fn setting_is(setting: Option<&str>, wanted: &str) -> (yes: bool)
    ensures
        yes == is_set(setting, wanted),
{
    match setting {
        Some(text) => same_text(text, wanted),
        None => false,
    }
}

impl Tuning {
    /// Everything switched off.
    pub fn plain() -> (tuning: Tuning)
        ensures
            tuning == (Tuning { gather: false, prefetch: false, pair_kernel: false }),
    {
        Tuning { gather: false, prefetch: false, pair_kernel: false }
    }

    /// Reads the settings `SANDGLASS_MODE`, `SANDGLASS_PREFETCH` and
    /// `SANDGLASS_L2_KERNEL`. Side-by-side chains are switched on by the mode
    /// `avx2`, and only on a processor that has it.
    pub fn from_settings(
        mode: Option<&str>,
        has_avx2: bool,
        prefetch: Option<&str>,
        l2_kernel: Option<&str>,
    ) -> (tuning: Tuning)
        ensures
            tuning.gather == (is_set(mode, "avx2") && has_avx2),
            tuning.prefetch == is_set(prefetch, "1"),
            tuning.pair_kernel == is_set(l2_kernel, "1"),
    {
        Tuning {
            gather: setting_is(mode, "avx2") && has_avx2,
            prefetch: setting_is(prefetch, "1"),
            pair_kernel: setting_is(l2_kernel, "1"),
        }
    }
}

/// Whether the setting `SANDGLASS_HUGEPAGE` asks for a scratch in huge pages.
pub fn wants_huge_pages(setting: Option<&str>) -> (yes: bool)
    ensures
        yes == is_set(setting, "1"),
{
    setting_is(setting, "1")
}

/// Each switch has its own setting: nothing else switches it, and side-by-side
/// chains need the processor as well.
pub proof fn law_switches_have_their_own_settings(
    mode: Option<&str>,
    has_avx2: bool,
    prefetch: Option<&str>,
    l2_kernel: Option<&str>,
    tuning: Tuning,
)
    requires
        call_ensures(Tuning::from_settings, (mode, has_avx2, prefetch, l2_kernel), tuning),
    ensures
        tuning.gather <==> has_avx2 && (mode matches Some(text) && text@ == "avx2"@),
        tuning.prefetch <==> (prefetch matches Some(text) && text@ == "1"@),
        tuning.pair_kernel <==> (l2_kernel matches Some(text) && text@ == "1"@),
{
}

} // verus!
