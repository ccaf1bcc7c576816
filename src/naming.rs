//! Names of parts and of a join's output.
use vstd::prelude::*;
use vstd::string::*;
use crate::text::{decimal, push_char, push_decimal};

verus! {

/// The name of part `index` of the family `basename`: `<basename>.<index>`,
/// the index written in decimal.
pub open spec fn part_name_of(basename: Seq<char>, index: nat) -> Seq<char> {
    basename.push('.') + decimal(index)
}

/// Builds the name of part `index` of the family `basename`.
pub fn part_name(basename: &str, index: usize) -> (r: String)
    ensures
        r@ == part_name_of(basename@, index as nat),
{
    let mut r = String::from_str(basename);
    push_char(&mut r, '.');
    push_decimal(&mut r, index);
    r
}

/// What a path component means, seen from the end of a path: `None` for
/// one that names no file (empty, `.` or `..`), else the component itself.
pub open spec fn named_component(seg: Seq<char>) -> Option<Seq<char>> {
    if seg.len() == 0 || seg == seq!['.'] || seg == seq!['.', '.'] {
        None
    } else {
        Some(seg)
    }
}

/// Scans `rest` from its end, `seg` being the part of the component already
/// passed over. Empty components and `.` are skipped; the first other
/// component met decides.
pub open spec fn file_name_scan(rest: Seq<char>, seg: Seq<char>) -> Option<Seq<char>>
    decreases rest.len(),
{
    if rest.len() == 0 {
        named_component(seg)
    } else if rest.last() == '/' {
        if seg.len() == 0 || seg == seq!['.'] {
            file_name_scan(rest.drop_last(), Seq::empty())
        } else {
            named_component(seg)
        }
    } else {
        file_name_scan(rest.drop_last(), seq![rest.last()] + seg)
    }
}

/// The final component of a `/`-separated path, as `Path::file_name` gives
/// it: separators repeat freely, `.` components are skipped, and the path
/// has no file name when it ends in `..`, is a root, or is empty.
pub open spec fn file_name_of(p: Seq<char>) -> Option<Seq<char>> {
    file_name_scan(p, Seq::empty())
}

/// The final component of the path `p`, if it has one.
pub fn file_name(p: &str) -> (r: Option<String>)
    ensures
        r matches Some(n) ==> file_name_of(p@) == Some(n@),
        r is None ==> file_name_of(p@) is None,
{
    let len = p.unicode_len();
    let ghost s = p@;
    let mut i: usize = len;
    let mut end: usize = len;
    assert(s.take(len as int) =~= s);
    assert(s.subrange(len as int, len as int) =~= Seq::<char>::empty());
    while i > 0
        invariant
            i <= end <= len == s.len(),
            p@ == s,
            file_name_scan(s.take(i as int), s.subrange(i as int, end as int)) == file_name_of(s),
        decreases i,
    {
        let c = p.get_char(i - 1);
        assert(s.take(i as int).drop_last() =~= s.take(i - 1));
        assert(s.take(i as int).last() == c);
        if c == '/' {
            let k = end - i;
            let is_dot = k == 1 && p.get_char(i) == '.';
            assert(is_dot <==> s.subrange(i as int, end as int) == seq!['.']) by {
                if k == 1 {
                    assert(s.subrange(i as int, end as int) =~= seq![s[i as int]]);
                }
                if s.subrange(i as int, end as int) == seq!['.'] {
                    assert(s.subrange(i as int, end as int)[0] == s[i as int]);
                }
            }
            if k == 0 || is_dot {
                end = i - 1;
                assert(s.subrange(i - 1, end as int) =~= Seq::<char>::empty());
            } else {
                let seg = p.substring_char(i, end);
                if k == 2 && p.get_char(i) == '.' && p.get_char(i + 1) == '.' {
                    assert(seg@ =~= seq!['.', '.']);
                    return None;
                }
                assert(seg@ != seq!['.', '.']) by {
                    if seg@ == seq!['.', '.'] {
                        assert(seg@[0] == s[i as int]);
                        assert(seg@[1] == s[i + 1]);
                    }
                }
                return Some(String::from_str(seg));
            }
        } else {
            assert(seq![c] + s.subrange(i as int, end as int) =~= s.subrange(i - 1, end as int));
        }
        i = i - 1;
    }
    assert(s.take(0) =~= Seq::<char>::empty());
    let k = end;
    let seg = p.substring_char(0, end);
    assert(seg@ =~= s.subrange(0, end as int));
    if k == 0 {
        return None;
    }
    if k == 1 && p.get_char(0) == '.' {
        assert(seg@ =~= seq!['.']);
        return None;
    }
    if k == 2 && p.get_char(0) == '.' && p.get_char(1) == '.' {
        assert(seg@ =~= seq!['.', '.']);
        return None;
    }
    assert(seg@ != seq!['.'] && seg@ != seq!['.', '.']) by {
        if seg@ == seq!['.'] {
            assert(seg@[0] == s[0]);
        }
        if seg@ == seq!['.', '.'] {
            assert(seg@[0] == s[0]);
            assert(seg@[1] == s[1]);
        }
    }
    Some(String::from_str(seg))
}

/// The path a join writes to: `outfile` when one is given, else the final
/// component of `basename`, so that the output lands in the current
/// directory. `None` when no outfile is given and `basename` has no final
/// component.
pub fn join_output_path(basename: &str, outfile: Option<String>) -> (r: Option<String>)
    ensures
        outfile matches Some(o) ==> r matches Some(n) && n@ == o@,
        outfile is None ==> (r matches Some(n) ==> file_name_of(basename@) == Some(n@)),
        outfile is None ==> (r is None <==> file_name_of(basename@) is None),
{
    match outfile {
        Some(o) => Some(o),
        None => file_name(basename),
    }
}

} // verus!
