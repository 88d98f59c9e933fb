//! Tokenising a string in place: each call takes the next token off the
//! front of a string slice and leaves the rest behind.

use vstd::prelude::*;

verus! {

use vstd::string::StrSliceExecFns;
use crate::strsplit::matches_at;
use crate::strsplit::find_sub;
use crate::strsplit::lemma_find_sub;
use crate::strsplit::find_sub_in;
use crate::strsplit::Delimiter;

/// Split off the token before the first occurrence of `delimiter`: the
/// token is returned and `s` is left holding what follows the delimiter —
/// or, when the delimiter does not occur, the whole string is returned and
/// `s` is left empty.
pub fn strtok<'a>(s: &mut &'a str, delimiter: char) -> (r: &'a str)
    requires
        old(s).is_ascii(),
        old(s)@.len() < usize::MAX,
    ensures
        final(s).is_ascii(),
        final(s)@.len() <= old(s)@.len(),
        ({
            let i = find_sub(old(s)@, seq![delimiter]);
            if i <= old(s)@.len() {
                r@ == old(s)@.take(i) && final(s)@ == old(s)@.skip(i + 1)
            } else {
                r@ == old(s)@ && final(s)@ == Seq::<char>::empty()
            }
        }),
{
    let cur: &'a str = *s;
    match delimiter.find_next(cur) {
        Some(pair) => {
            let prefix = cur.substring_ascii(0, pair.0);
            let suffix = cur.substring_ascii(pair.1, cur.unicode_len());
            *s = suffix;
            proof {
                assert(suffix@ =~= cur@.skip(pair.0 + 1));
            }
            prefix
        },
        None => {
            let prefix = cur;
            let suffix = cur.substring_ascii(cur.unicode_len(), cur.unicode_len());
            *s = suffix;
            proof {
                assert(suffix@ =~= Seq::<char>::empty());
            }
            prefix
        },
    }
}

/// The character sequences of a list of string slices.
pub open spec fn delim_views(ds: Seq<&str>) -> Seq<Seq<char>> {
    ds.map_values(|d: &str| d@)
}

/// The earliest match among the delimiters: the position of the first
/// occurrence of any of them, with the length of the delimiter that stands
/// there — the earlier delimiter in the list winning ties.  When none
/// occurs the position is one past the end and the length zero.
pub open spec fn best_delim(s: Seq<char>, ds: Seq<Seq<char>>) -> (int, int)
    decreases ds.len(),
{
    if ds.len() == 0 {
        (s.len() as int + 1, 0int)
    } else {
        let rest = best_delim(s, ds.drop_last());
        let i = find_sub(s, ds.last());
        if i <= s.len() && (rest.0 > s.len() || i < rest.0) {
            (i, ds.last().len() as int)
        } else {
            rest
        }
    }
}

/// What the earliest match is: a real match of one of the delimiters,
/// before which none of them occurs.
pub proof fn lemma_best_delim(s: Seq<char>, ds: Seq<Seq<char>>)
    ensures
        best_delim(s, ds).0 <= s.len() + 1,
        best_delim(s, ds).0 <= s.len() ==> exists|k: int| 0 <= k < ds.len() && matches_at(
            s,
            #[trigger] ds[k],
            best_delim(s, ds).0,
        ) && best_delim(s, ds).1 == ds[k].len(),
        best_delim(s, ds).0 > s.len() ==> best_delim(s, ds).1 == 0,
    decreases ds.len(),
{
    if ds.len() > 0 {
        lemma_best_delim(s, ds.drop_last());
        lemma_find_sub(s, ds.last());
        let b = best_delim(s, ds);
        if b.0 <= s.len() {
            let i = find_sub(s, ds.last());
            if i <= s.len() && (best_delim(s, ds.drop_last()).0 > s.len() || i < best_delim(
                s,
                ds.drop_last(),
            ).0) {
                assert(ds[ds.len() - 1] == ds.last());
                assert(matches_at(s, ds[ds.len() - 1], b.0));
            } else {
                let k = choose|k: int| 0 <= k < ds.drop_last().len() && matches_at(
                    s,
                    #[trigger] ds.drop_last()[k],
                    best_delim(s, ds.drop_last()).0,
                ) && best_delim(s, ds.drop_last()).1 == ds.drop_last()[k].len();
                assert(ds.drop_last()[k] == ds[k]);
                assert(matches_at(s, ds[k], b.0));
            }
        }
    }
}

/// One step of the tokeniser: while the earliest delimiter match is at the
/// very front, that delimiter is skipped; then the token runs up to the
/// earliest match (or the end), and what follows the match is kept.
pub open spec fn spec_strtokn(s: Seq<char>, ds: Seq<Seq<char>>) -> (Seq<char>, Seq<char>)
    decreases s.len(),
        when (forall|k: int| 0 <= k < ds.len() ==> (#[trigger] ds[k]).len() >= 1)
        via spec_strtokn_decreases
{
    let b = best_delim(s, ds);
    if b.0 <= s.len() && b.0 == 0 {
        spec_strtokn(s.skip(b.1), ds)
    } else if b.0 <= s.len() {
        (s.take(b.0), s.skip(b.0 + b.1))
    } else {
        (s, Seq::<char>::empty())
    }
}

#[via_fn]
proof fn spec_strtokn_decreases(s: Seq<char>, ds: Seq<Seq<char>>) {
    lemma_best_delim(s, ds);
    let b = best_delim(s, ds);
    if b.0 <= s.len() && b.0 == 0 {
        let k = choose|k: int| 0 <= k < ds.len() && matches_at(s, #[trigger] ds[k], b.0)
            && b.1 == ds[k].len();
        assert(1 <= b.1 <= s.len());
    }
}

/// Split off the token before the earliest occurrence of any delimiter,
/// first skipping every delimiter that stands at the very front.  The token
/// is returned; `s` is left holding what follows the match, or nothing when
/// no delimiter occurs.  Delimiters must not be empty: an empty delimiter
/// at the front would be skipped without consuming anything, forever.
pub fn strtokn<'a>(s: &mut &'a str, delimiters: &[&str]) -> (r: &'a str)
    requires
        old(s).is_ascii(),
        old(s)@.len() < usize::MAX,
        forall|k: int| 0 <= k < delimiters@.len() ==> (#[trigger] delimiters@[k])@.len() >= 1,
        forall|k: int| 0 <= k < delimiters@.len() ==> vstd::utf8::is_ascii_chars(
            (#[trigger] delimiters@[k])@,
        ),
    ensures
        final(s).is_ascii(),
        final(s)@.len() <= old(s)@.len(),
        r@ == spec_strtokn(old(s)@, delim_views(delimiters@)).0,
        final(s)@ == spec_strtokn(old(s)@, delim_views(delimiters@)).1,
{
    let ghost ds = delim_views(delimiters@);
    let nd = delimiters.len();
    loop
        invariant
            s.is_ascii(),
            s@.len() < usize::MAX,
            s@.len() <= old(s)@.len(),
            nd == delimiters@.len(),
            ds == delim_views(delimiters@),
            forall|k: int| 0 <= k < ds.len() ==> (#[trigger] ds[k]).len() >= 1,
            forall|k: int| 0 <= k < delimiters@.len() ==> vstd::utf8::is_ascii_chars(
                (#[trigger] delimiters@[k])@,
            ),
            spec_strtokn(s@, ds) == spec_strtokn(old(s)@, ds),
        decreases s@.len(),
    {
        let cur: &'a str = *s;
        let n = cur.unicode_len();
        // The earliest delimiter match in `cur`.
        let mut bi: usize = n + 1;
        let mut bl: usize = 0;
        let mut t: usize = 0;
        proof {
            assert(ds.take(0) =~= Seq::<Seq<char>>::empty());
        }
        while t < nd
            invariant
                cur.is_ascii(),
                cur@.len() == n < usize::MAX,
                nd == delimiters@.len(),
                ds == delim_views(delimiters@),
                forall|k: int| 0 <= k < delimiters@.len() ==> vstd::utf8::is_ascii_chars(
                    (#[trigger] delimiters@[k])@,
                ),
                t <= nd,
                (bi as int, bl as int) == best_delim(cur@, ds.take(t as int)),
                bi <= n + 1,
            decreases nd - t,
        {
            let d = delimiters[t];
            let i = find_sub_in(cur, d);
            proof {
                assert(ds.take(t + 1).drop_last() =~= ds.take(t as int));
                assert(ds.take(t + 1).last() == ds[t as int]);
                assert(ds[t as int] == delimiters@[t as int]@);
                lemma_find_sub(cur@, d@);
            }
            if i <= n && (bi > n || i < bi) {
                bi = i;
                bl = d.unicode_len();
            }
            t += 1;
        }
        proof {
            assert(ds.take(nd as int) =~= ds);
            lemma_best_delim(cur@, ds);
        }
        if bi == 0 {
            // A delimiter stands at the front: skip it and try again.
            proof {
                let k = choose|k: int| 0 <= k < ds.len() && matches_at(
                    cur@,
                    #[trigger] ds[k],
                    0,
                ) && bl as int == ds[k].len();
                assert(1 <= bl <= n);
            }
            let rest = cur.substring_ascii(bl, n);
            *s = rest;
            proof {
                assert(rest@ =~= cur@.skip(bl as int));
            }
        } else {
            let (i, l) = if bi <= n {
                (bi, bl)
            } else {
                (n, 0)
            };
            proof {
                if bi <= n {
                    let k = choose|k: int| 0 <= k < ds.len() && matches_at(
                        cur@,
                        #[trigger] ds[k],
                        bi as int,
                    ) && bl as int == ds[k].len();
                    assert(bi + bl <= n);
                }
            }
            let prefix = cur.substring_ascii(0, i);
            let suffix = cur.substring_ascii(i + l, n);
            *s = suffix;
            proof {
                if bi <= n {
                    assert(prefix@ =~= cur@.take(bi as int));
                    assert(suffix@ =~= cur@.skip(bi + bl));
                } else {
                    assert(prefix@ =~= cur@);
                    assert(suffix@ =~= Seq::<char>::empty());
                }
            }
            return prefix;
        }
    }
}

} // verus!
