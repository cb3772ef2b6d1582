//! The ELF64 object model: records, their little-endian decoding, and
//! string-table name lookup.

pub mod header;
pub mod relocation;
pub mod section;
pub mod symbol;

use vstd::prelude::*;

verus! {

/// The position of the first NUL byte of `tab` at or after `off`;
/// `tab.len()` when there is none.
pub open spec fn name_end(tab: Seq<u8>, off: int) -> int
    decreases tab.len() - off,
{
    if off < 0 || off >= tab.len() {
        tab.len() as int
    } else if tab[off] == 0u8 {
        off
    } else {
        name_end(tab, off + 1)
    }
}

/// The NUL-terminated byte run of `tab` starting at `off`: its bytes without
/// the terminator, or `None` when `off` is out of range or no terminator
/// exists before the table ends.
pub open spec fn spec_name(tab: Seq<u8>, off: int) -> Option<Seq<u8>> {
    if 0 <= off < tab.len() && name_end(tab, off) < tab.len() {
        Some(tab.subrange(off, name_end(tab, off)))
    } else {
        None
    }
}

/// Resolve the NUL-terminated name at byte offset `off` of the string table.
pub fn lookup_name(tab: &Vec<u8>, off: u32) -> (r: Option<Vec<u8>>)
    ensures
        match r {
            Some(v) => spec_name(tab@, off as int) == Some(v@),
            None => spec_name(tab@, off as int) is None,
        },
{
    let start = off as usize;
    if start >= tab.len() {
        return None;
    }
    let mut i: usize = start;
    while i < tab.len() && tab[i] != 0u8
        invariant
            start <= i <= tab@.len(),
            start < tab@.len(),
            name_end(tab@, start as int) == name_end(tab@, i as int),
        decreases tab@.len() - i,
    {
        proof {
            assert(name_end(tab@, i as int) == name_end(tab@, i + 1));
        }
        i = i + 1;
    }
    if i == tab.len() {
        proof {
            assert(name_end(tab@, i as int) == tab@.len());
        }
        return None;
    }
    proof {
        assert(name_end(tab@, i as int) == i as int);
    }
    let mut v: Vec<u8> = Vec::new();
    let mut j: usize = start;
    while j < i
        invariant
            start <= j <= i <= tab@.len(),
            v@ == tab@.subrange(start as int, j as int),
        decreases i - j,
    {
        v.push(tab[j]);
        j = j + 1;
        proof {
            assert(tab@.subrange(start as int, j - 1) + seq![tab@[j - 1]] =~= tab@.subrange(
                start as int,
                j as int,
            ));
        }
    }
    Some(v)
}

} // verus!
