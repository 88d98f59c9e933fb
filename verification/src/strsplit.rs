//! Splitting a string at a delimiter: an iterator of the pieces, and the
//! search functions it is built on.

use vstd::prelude::*;

verus! {

use vstd::string::StrSliceExecFns;

/// Whether the needle `d` stands in `s` at position `i`.
pub open spec fn matches_at(s: Seq<char>, d: Seq<char>, i: int) -> bool {
    0 <= i && i + d.len() <= s.len() && s.subrange(i, i + d.len()) == d
}

/// The first position where `d` stands in `s`; one past the length when it
/// stands nowhere.
pub open spec fn find_sub(s: Seq<char>, d: Seq<char>) -> int
    decreases s.len(),
{
    if matches_at(s, d, 0) {
        0
    } else if s.len() == 0 {
        1
    } else {
        1 + find_sub(s.drop_first(), d)
    }
}

/// What `find_sub` finds: the first match, or the sentinel one past the end.
pub proof fn lemma_find_sub(s: Seq<char>, d: Seq<char>)
    ensures
        0 <= find_sub(s, d) <= s.len() + 1,
        find_sub(s, d) <= s.len() ==> matches_at(s, d, find_sub(s, d)),
        forall|j: int| 0 <= j < find_sub(s, d) ==> !matches_at(s, d, j),
        find_sub(s, d) == s.len() + 1 ==> forall|j: int| !matches_at(s, d, j),
    decreases s.len(),
{
    if matches_at(s, d, 0) {
    } else if s.len() == 0 {
        assert forall|j: int| !matches_at(s, d, j) by {}
    } else {
        let t = s.drop_first();
        lemma_find_sub(t, d);
        assert forall|j: int| 1 <= j implies matches_at(s, d, j) == matches_at(
            t,
            d,
            j - 1,
        ) by {
            if 0 <= j - 1 && j - 1 + d.len() <= t.len() {
                assert(t.subrange(j - 1, j - 1 + d.len()) =~= s.subrange(j, j + d.len()));
            }
        }
        if find_sub(t, d) <= t.len() {
            assert(matches_at(s, d, 1 + find_sub(t, d)));
        }
        assert forall|j: int| 0 <= j < find_sub(s, d) implies !matches_at(s, d, j) by {
            if j >= 1 {
                assert(!matches_at(t, d, j - 1));
            }
        }
        if find_sub(s, d) == s.len() + 1 {
            assert forall|j: int| !matches_at(s, d, j) by {
                if j >= 1 {
                    assert(!matches_at(t, d, j - 1));
                }
            }
        }
    }
}

/// Find the needle `d` in `s`: its first position, or one past the end of
/// `s` when it stands nowhere.
pub fn find_sub_in(s: &str, d: &str) -> (r: usize)
    requires
        s.is_ascii(),
        d.is_ascii(),
        s@.len() < usize::MAX,
    ensures
        r == find_sub(s@, d@),
    decreases s@.len(),
{
    proof {
        lemma_find_sub(s@, d@);
    }
    let n = s.unicode_len();
    let dn = d.unicode_len();
    if dn > n {
        proof {
            assert forall|j: int| !matches_at(s@, d@, j) by {}
            if find_sub(s@, d@) <= s@.len() {
                assert(matches_at(s@, d@, find_sub(s@, d@)));
            }
        }
        return n + 1;
    }
    let mut i: usize = 0;
    while i + dn <= n
        invariant
            s.is_ascii(),
            d.is_ascii(),
            n == s@.len(),
            dn == d@.len(),
            dn <= n < usize::MAX,
            i <= n + 1 - dn,
            forall|j: int| 0 <= j < i ==> !matches_at(s@, d@, j),
        decreases n - i,
    {
        let mut k: usize = 0;
        let mut hit = true;
        while k < dn
            invariant
                s.is_ascii(),
                d.is_ascii(),
                n == s@.len(),
                dn == d@.len(),
                i + dn <= n,
                k <= dn,
                hit == (s@.subrange(i as int, i + k) =~= d@.subrange(0, k as int)),
            decreases dn - k,
        {
            let a = s.get_ascii(i + k);
            let b = d.get_ascii(k);
            proof {
                assert(s@[i + k] as u8 == a);
                assert(d@[k as int] as u8 == b);
                assert(s@[i + k] as int <= 127 && d@[k as int] as int <= 127);
            }
            if a != b {
                hit = false;
                proof {
                    assert(s@[i + k] != d@[k as int]);
                    assert(s@.subrange(i as int, i + k + 1)[k as int] == s@[i + k]);
                    assert(d@.subrange(0, k as int + 1)[k as int] == d@[k as int]);
                }
            } else {
                proof {
                    if s@.subrange(i as int, i + k) =~= d@.subrange(0, k as int) {
                        assert(s@[i + k] == d@[k as int]) by {
                            assert(s@[i + k] as int == a as int);
                            assert(d@[k as int] as int == b as int);
                        }
                        assert(s@.subrange(i as int, i + k + 1) =~= d@.subrange(
                            0,
                            k as int + 1,
                        ));
                    } else {
                        let w = choose|w: int| 0 <= w < k && s@.subrange(i as int, i + k)[w]
                            != d@.subrange(0, k as int)[w];
                        assert(s@.subrange(i as int, i + k + 1)[w] != d@.subrange(
                            0,
                            k as int + 1,
                        )[w]);
                    }
                }
            }
            k += 1;
        }
        if hit {
            proof {
                assert(s@.subrange(i as int, i + dn) =~= d@.subrange(0, dn as int));
                assert(d@.subrange(0, dn as int) =~= d@);
                assert(matches_at(s@, d@, i as int));
                lemma_find_sub(s@, d@);
                if find_sub(s@, d@) < i {
                    assert(matches_at(s@, d@, find_sub(s@, d@)));
                }
            }
            return i;
        }
        proof {
            assert(!matches_at(s@, d@, i as int)) by {
                if matches_at(s@, d@, i as int) {
                    assert(s@.subrange(i as int, i + dn) == d@);
                    assert(s@.subrange(i as int, i + dn) =~= d@.subrange(0, dn as int));
                }
            }
        }
        i += 1;
    }
    proof {
        lemma_find_sub(s@, d@);
        assert forall|j: int| !matches_at(s@, d@, j) by {
            if 0 <= j && j + dn <= n {
                assert(j < i);
            }
        }
        if find_sub(s@, d@) <= s@.len() {
            assert(matches_at(s@, d@, find_sub(s@, d@)));
        }
    }
    n + 1
}

/// Something that can find its next occurrence in a string: the byte range
/// it occupies there.
pub trait Delimiter: Sized {
    /// The characters the delimiter stands for.
    spec fn dview(&self) -> Seq<char>;

    /// The first occurrence in `s`, as the pair of its start and one past
    /// its end.
    fn find_next(&self, s: &str) -> (r: Option<(usize, usize)>)
        requires
            s.is_ascii(),
            s@.len() < usize::MAX,
        ensures
            match r {
                Some(pair) => pair.0 == find_sub(s@, self.dview()) && pair.1 == pair.0
                    + self.dview().len() && matches_at(s@, self.dview(), pair.0 as int),
                None => find_sub(s@, self.dview()) == s@.len() + 1,
            },
    ;
}

impl Delimiter for char {
    open spec fn dview(&self) -> Seq<char> {
        seq![*self]
    }

    fn find_next(&self, s: &str) -> (r: Option<(usize, usize)>) {
        let n = s.unicode_len();
        let mut i: usize = 0;
        proof {
            lemma_find_sub(s@, self.dview());
        }
        while i < n
            invariant
                s.is_ascii(),
                n == s@.len() < usize::MAX,
                i <= n,
                forall|j: int| 0 <= j < i ==> !matches_at(s@, self.dview(), j),
            decreases n - i,
        {
            let c = s.get_char(i);
            if c == *self {
                proof {
                    assert(s@.subrange(i as int, i + 1) =~= seq![*self]);
                    assert(matches_at(s@, self.dview(), i as int));
                    lemma_find_sub(s@, self.dview());
                    if find_sub(s@, self.dview()) < i {
                        assert(matches_at(s@, self.dview(), find_sub(s@, self.dview())));
                    }
                }
                return Some((i, i + 1));
            }
            proof {
                assert(!matches_at(s@, self.dview(), i as int)) by {
                    if matches_at(s@, self.dview(), i as int) {
                        assert(s@.subrange(i as int, i + 1)[0] == s@[i as int]);
                    }
                }
            }
            i += 1;
        }
        proof {
            lemma_find_sub(s@, self.dview());
            assert forall|j: int| !matches_at(s@, self.dview(), j) by {
                if 0 <= j && j + 1 <= n {
                    assert(j < i);
                }
            }
            if find_sub(s@, self.dview()) <= s@.len() {
                assert(matches_at(s@, self.dview(), find_sub(s@, self.dview())));
            }
        }
        None
    }
}

impl<'d> Delimiter for &'d str {
    open spec fn dview(&self) -> Seq<char> {
        self@
    }

    fn find_next(&self, s: &str) -> (r: Option<(usize, usize)>) {
        if !self.is_ascii() {
            // A delimiter with non-ASCII characters never occurs in an
            // ASCII haystack.
            proof {
                lemma_find_sub(s@, self.dview());
                if find_sub(s@, self.dview()) <= s@.len() {
                    let i = find_sub(s@, self.dview());
                    assert(matches_at(s@, self.dview(), i));
                    let w = choose|w: int| 0 <= w < self@.len() && !('\0' <= #[trigger] self@[w]
                        <= '\u{7f}');
                    assert(s@.subrange(i, i + self@.len())[w] == s@[i + w]);
                }
            }
            return None;
        }
        let i = find_sub_in(s, self);
        let n = s.unicode_len();
        if i > n {
            proof {
                lemma_find_sub(s@, self.dview());
            }
            None
        } else {
            proof {
                lemma_find_sub(s@, self.dview());
            }
            Some((i, i + self.unicode_len()))
        }
    }
}

/// An iterator of the pieces of a string between occurrences of a
/// delimiter.
pub struct StrSplit<'a, D: Delimiter> {
    remainder: Option<&'a str>,
    delimiter: D,
}

impl<'a, D: Delimiter> StrSplit<'a, D> {
    /// What is left to split, if splitting has not finished.
    pub closed spec fn remaining(&self) -> Option<Seq<char>> {
        match self.remainder {
            Some(s) => Some(s@),
            None => None,
        }
    }

    /// The delimiter's characters.
    pub closed spec fn delim(&self) -> Seq<char> {
        self.delimiter.dview()
    }

    /// Whether the remainder is ASCII and short enough to index.
    pub closed spec fn inv(&self) -> bool {
        match self.remainder {
            Some(s) => vstd::string::is_ascii(s) && s@.len() < usize::MAX,
            None => true,
        }
    }

    /// Start splitting `haystack` at every occurrence of `delimiter`.
    pub fn new(haystack: &'a str, delimiter: D) -> (r: Self)
        requires
            haystack.is_ascii(),
            haystack@.len() < usize::MAX,
        ensures
            r.remaining() == Some(haystack@),
            r.delim() == delimiter.dview(),
            r.inv(),
    {
        Self { remainder: Some(haystack), delimiter }
    }

    /// The piece up to the next occurrence of the delimiter: the rest of the
    /// string once no occurrence remains, and nothing at all after that.
    pub fn next(&mut self) -> (r: Option<&'a str>)
        requires
            old(self).inv(),
        ensures
            final(self).inv(),
            final(self).delim() == old(self).delim(),
            match (old(self).remaining(), r) {
                (None, None) => final(self).remaining() is None,
                (Some(rem), Some(piece)) => {
                    let i = find_sub(rem, old(self).delim());
                    if i <= rem.len() {
                        piece@ == rem.take(i) && final(self).remaining() == Some(
                            rem.skip(i + old(self).delim().len()),
                        )
                    } else {
                        piece@ == rem && final(self).remaining() is None
                    }
                },
                _ => false,
            },
    {
        let remainder = match self.remainder {
            None => {
                return None;
            },
            Some(rem) => rem,
        };
        match self.delimiter.find_next(remainder) {
            Some(pair) => {
                let until = remainder.substring_ascii(0, pair.0);
                let rest = remainder.substring_ascii(pair.1, remainder.unicode_len());
                self.remainder = Some(rest);
                proof {
                    assert(until@ =~= remainder@.take(pair.0 as int));
                    assert(rest@ =~= remainder@.skip(pair.0 + self.delimiter.dview().len()));
                }
                Some(until)
            },
            None => {
                self.remainder = None;
                Some(remainder)
            },
        }
    }
}

/// The piece of `s` before the first occurrence of `c`: the whole of `s`
/// when `c` does not occur.
pub fn until_char(s: &str, c: char) -> (r: &str)
    requires
        s.is_ascii(),
        s@.len() < usize::MAX,
    ensures
        ({
            let i = find_sub(s@, seq![c]);
            r@ == if i <= s@.len() {
                s@.take(i)
            } else {
                s@
            }
        }),
{
    let mut split = StrSplit::new(s, c);
    match split.next() {
        Some(piece) => piece,
        None => {
            proof {
                assert(false);
            }
            s
        },
    }
}

} // verus!
