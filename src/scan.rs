use vstd::prelude::*;

verus! {

/// Whether a directory entry is left out of the scan: its name begins with `.`.
/// The scanner prunes such directories whole.
pub fn is_hidden(name: &str) -> (r: bool)
    ensures
        r == (name@.len() > 0 && name@[0] == '.'),
{
    name.unicode_len() > 0 && name.get_char(0) == '.'
}

} // verus!
