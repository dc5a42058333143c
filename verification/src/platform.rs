//! Name conversions for the platform layer.
use vstd::prelude::*;

verus! {

/// Strips the leading `'/'` characters from a POSIX-style name for the
/// Win32 APIs: `"/my_segment"` becomes `"my_segment"`.
pub fn to_win32_name(name: &str) -> (r: String)
    ensures
        r@.len() <= name@.len(),
        r@ == name@.skip(name@.len() - r@.len()),
        forall|j: int| 0 <= j < name@.len() - r@.len() ==> name@[j] == '/',
        r@.len() > 0 ==> r@[0] != '/',
{
    let n = name.unicode_len();
    let mut k: usize = 0;
    while k < n && name.get_char(k) == '/'
        invariant
            n == name@.len(),
            k <= n,
            forall|j: int| 0 <= j < k ==> name@[j] == '/',
        decreases n - k,
    {
        k = k + 1;
    }
    let rest = name.substring_char(k, n);
    let r = String::from_str(rest);
    assert(r@ =~= name@.skip(k as int));
    r
}

} // verus!
