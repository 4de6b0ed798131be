use vstd::prelude::*;
use vstd::string::StrSliceExecFns;

use crate::allocation::views;

verus! {

/// What `str::trim` leaves of a string: it without leading and trailing white space.
pub uninterp spec fn trimmed(s: Seq<char>) -> Seq<char>;

/// Relies on `str::trim`, copied into a new string.
#[verifier::external_body]
fn trim_str(s: &str) -> (r: String)
    ensures
        r@ == trimmed(s@),
{
    s.trim().to_string()
}

pub open spec fn is_separator(c: char) -> bool {
    c == ',' || c == '\n'
}

/// The pieces of `s` between separators (commas and line breaks), in order; `n` separators
/// give `n + 1` pieces, some of them possibly empty.
pub open spec fn pieces(s: Seq<char>) -> Seq<Seq<char>>
    decreases s.len(),
{
    if s.len() == 0 {
        seq![Seq::empty()]
    } else {
        let p = pieces(s.drop_last());
        if is_separator(s.last()) {
            p.push(Seq::empty())
        } else {
            p.update(p.len() - 1, p.last().push(s.last()))
        }
    }
}

proof fn lemma_pieces_nonempty(s: Seq<char>)
    ensures
        pieces(s).len() >= 1,
    decreases s.len(),
{
    if s.len() > 0 {
        lemma_pieces_nonempty(s.drop_last());
    }
}

/// The excluded seat labels of a settings text: each piece between commas or line breaks,
/// trimmed.
pub fn excluded_labels(text: &str) -> (r: Vec<String>)
    ensures
        views(r@) == pieces(text@).map_values(|p: Seq<char>| trimmed(p)),
{
    let len = text.unicode_len();
    let mut r: Vec<String> = Vec::new();
    let mut start: usize = 0;
    let mut i: usize = 0;
    while i < len
        invariant
            len == text@.len(),
            start <= i <= len,
            pieces(text@.take(i as int)) == pieces(text@.take(start as int)).drop_last()
                .push(text@.subrange(start as int, i as int)) || start == i,
            start == i ==> pieces(text@.take(i as int)).last() == Seq::<char>::empty(),
            pieces(text@.take(i as int)).len() >= 1,
            views(r@) == pieces(text@.take(i as int)).drop_last().map_values(|p: Seq<char>| trimmed(p)),
        decreases len - i,
    {
        let c = text.get_char(i);
        let ghost before = pieces(text@.take(i as int));
        proof {
            assert(text@.take(i + 1).drop_last() =~= text@.take(i as int));
            assert(text@.take(i + 1).last() == c);
        }
        if c == ',' || c == '\n' {
            let piece = text.substring_char(start, i);
            let ghost rv = views(r@);
            r.push(trim_str(piece));
            proof {
                assert(piece@ == before.last()) by {
                    if start < i {
                        assert(before == pieces(text@.take(start as int)).drop_last().push(text@.subrange(start as int, i as int)));
                    } else {
                        assert(piece@ =~= Seq::<char>::empty());
                    }
                }
                let after = pieces(text@.take(i + 1));
                assert(after == before.push(Seq::empty()));
                assert(after.drop_last() =~= before);
                assert(before =~= before.drop_last().push(before.last()));
                assert(views(r@) =~= rv.push(trimmed(piece@)));
                assert(views(r@) =~= after.drop_last().map_values(|p: Seq<char>| trimmed(p)));
                assert(after.last() == Seq::<char>::empty());
            }
            start = i + 1;
        } else {
            proof {
                let after = pieces(text@.take(i + 1));
                assert(after == before.update(before.len() - 1, before.last().push(c)));
                assert(after.drop_last() =~= before.drop_last());
                if start < i {
                    assert(before.last() == text@.subrange(start as int, i as int));
                }
                assert(after.last() =~= text@.subrange(start as int, i + 1));
                assert(after.len() == before.len());
                assert(after =~= after.drop_last().push(after.last()));
                assert(pieces(text@.take(start as int)).drop_last() =~= before.drop_last()) by {
                    if start < i {
                        assert(before.drop_last() =~= pieces(text@.take(start as int)).drop_last());
                    } else {
                        assert(before.drop_last() == pieces(text@.take(start as int)).drop_last());
                    }
                }
            }
        }
        i = i + 1;
    }
    let last = text.substring_char(start, len);
    let ghost rv = views(r@);
    let ghost all = pieces(text@.take(len as int));
    r.push(trim_str(last));
    proof {
        assert(text@.take(len as int) =~= text@);
        assert(last@ == all.last()) by {
            if start == len {
                assert(last@ =~= Seq::<char>::empty());
            }
        }
        assert(all =~= all.drop_last().push(all.last()));
        assert(views(r@) =~= rv.push(trimmed(last@)));
        assert(views(r@) =~= all.map_values(|p: Seq<char>| trimmed(p)));
    }
    r
}

} // verus!
