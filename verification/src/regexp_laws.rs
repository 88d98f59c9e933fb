//! Proved laws of the pattern-matching engine.
//!
//! The engine is deterministic and greedy and never backtracks, so its
//! behaviour on the supported constructs can be pinned down exactly: a
//! pattern of plain atoms (literal characters and `.`) matches a prefix of
//! the input character by character, a trailing `$` demands that the input
//! end there, and a single starred / plussed / optional atom consumes the
//! maximal run of matching characters before the rest of the pattern is
//! tried.  Each law below states one of those facts over `spec_compile` and
//! `spec_matches`, the functions the executable contracts are written in.

use vstd::prelude::*;

verus! {

use vstd::utf8::is_ascii_chars;
use crate::regexp::FSM_COLUMN_SIZE;
use crate::regexp::FSM_LINEEND;
use crate::regexp::lit_col;
use crate::regexp::dot_col;
use crate::regexp::dollar_col;
use crate::regexp::star_col;
use crate::regexp::plus_col;
use crate::regexp::quest_col;
use crate::regexp::reject_col;
use crate::regexp::is_postfix_op;
use crate::regexp::compile_step;
use crate::regexp::spec_compile;
use crate::regexp::spec_compile_ok;
use crate::regexp::run_fuel;
use crate::regexp::match_fuel;
use crate::regexp::spec_matches;

/// A plain atom: one pattern character that stands for itself, or `.`.
pub open spec fn is_atom(c: char) -> bool {
    !is_postfix_op(c) && c != '$'
}

/// A pattern fragment made of plain atoms only.
pub open spec fn all_atoms(p: Seq<char>) -> bool {
    forall|i: int| 0 <= i < p.len() ==> is_atom(#[trigger] p[i])
}

/// Whether the atom `pc` matches the input character `c`: `.` matches every
/// printable ASCII character (code 32 to 126), any other atom only itself.
pub open spec fn atom_matches(pc: char, c: char) -> bool {
    if pc == '.' {
        32 <= c as int <= 126
    } else {
        pc == c
    }
}

/// The column one atom compiles to.
pub open spec fn atom_col(c: char, target: nat) -> Seq<(nat, nat)> {
    if c == '.' {
        dot_col(target)
    } else {
        lit_col(c, target)
    }
}

/// The atoms of `p` match the input pointwise, starting at position `from`.
pub open spec fn atoms_match_at(p: Seq<char>, s: Seq<char>, from: int) -> bool {
    &&& from + p.len() <= s.len()
    &&& forall|i: int| 0 <= i < p.len() ==> atom_matches(#[trigger] p[i], s[from + i])
}

/// The length of the maximal run of characters of `s`, starting at `t`, that
/// the atom `pc` matches.
pub open spec fn max_run(pc: char, s: Seq<char>, t: int) -> int
    decreases s.len() - t,
        when 0 <= t <= s.len()
{
    if t < s.len() && atom_matches(pc, s[t]) {
        1 + max_run(pc, s, t + 1)
    } else {
        0
    }
}

/// The table `a` carries, from column `k` on, the machine of the atoms `r`
/// followed (when `dollar` is set) by a final `$` column, with nothing after
/// it: exactly the tail `spec_compile` builds for such a pattern suffix.
pub open spec fn atom_tail_shape(
    a: Seq<Seq<(nat, nat)>>,
    r: Seq<char>,
    dollar: bool,
    k: int,
) -> bool {
    &&& 1 <= k
    &&& a.len() == k + r.len() + (if dollar { 1int } else { 0int })
    &&& forall|i: int| 0 <= i < r.len() ==> a[k + i] == atom_col(#[trigger] r[i], (k + i + 1) as nat)
    &&& dollar ==> a[k + r.len()] == dollar_col((k + r.len() + 1) as nat)
}

/// A lower bound on `max_run`-free fuel: an ASCII character never selects the
/// end-of-input slot.
proof fn lemma_ascii_code(c: char)
    requires
        '\0' <= c <= '\u{7f}',
    ensures
        0 <= c as int <= 127,
{
}

/// The run of the machine over a tail of plain atoms: from column `k` at
/// input position `t`, the run accepts exactly when the remaining atoms match
/// the input pointwise and, with a trailing `$`, the input ends with them.
pub proof fn lemma_atoms_run(
    a: Seq<Seq<(nat, nat)>>,
    r: Seq<char>,
    dollar: bool,
    k: int,
    s: Seq<char>,
    t: int,
    fuel: nat,
)
    requires
        atom_tail_shape(a, r, dollar, k),
        all_atoms(r),
        is_ascii_chars(s),
        is_ascii_chars(r),
        0 <= t <= s.len(),
        fuel >= r.len() + 2,
    ensures
        run_fuel(a, s, k, t, fuel) == (atoms_match_at(r, s, t)
            && (dollar ==> t + r.len() == s.len())),
    decreases r.len(),
{
    if r.len() == 0 {
        if dollar {
            // `k` is the index of the `$` column.
            if t >= s.len() {
                assert(a[k][FSM_LINEEND as int] == (a.len() as nat, 1nat));
                assert(run_fuel(a, s, k, t, fuel));
            } else {
                lemma_ascii_code(s[t]);
                assert(a[k][s[t] as int] == (0nat, 0nat));
                assert(run_fuel(a, s, 0, t, (fuel - 1) as nat) == false);
                assert(!run_fuel(a, s, k, t, fuel));
            }
        } else {
            // `k` is the accept index.
            assert(run_fuel(a, s, k, t, fuel));
        }
    } else {
        let c = r[0];
        assert(is_atom(c));
        assert(a[k] == atom_col(c, (k + 1) as nat));
        if t >= s.len() {
            // The input ran out on an atom column, whose end-of-input slot
            // rejects.
            assert(a[k][FSM_LINEEND as int] == (0nat, 0nat));
            assert(!run_fuel(a, s, k, t, fuel));
            assert(!atoms_match_at(r, s, t));
        } else {
            lemma_ascii_code(s[t]);
            let code = s[t] as int;
            if atom_matches(c, s[t]) {
                assert(a[k][code] == ((k + 1) as nat, 1nat));
                assert(run_fuel(a, s, k, t, fuel)
                    == run_fuel(a, s, k + 1, t + 1, (fuel - 1) as nat));
                assert(atom_tail_shape(a, r.drop_first(), dollar, k + 1)) by {
                    assert(forall|i: int| 0 <= i < r.drop_first().len()
                        ==> #[trigger] r.drop_first()[i] == r[i + 1]);
                }
                assert(all_atoms(r.drop_first()));
                assert(is_ascii_chars(r.drop_first()));
                lemma_atoms_run(a, r.drop_first(), dollar, k + 1, s, t + 1, (fuel - 1) as nat);
                assert(atoms_match_at(r, s, t) == (atom_matches(c, s[t])
                    && atoms_match_at(r.drop_first(), s, t + 1))) by {
                    if atom_matches(c, s[t]) && atoms_match_at(r.drop_first(), s, t + 1) {
                        assert forall|i: int| 0 <= i < r.len() implies
                            atom_matches(#[trigger] r[i], s[t + i]) by {
                            if i > 0 {
                                assert(r.drop_first()[i - 1] == r[i]);
                                assert(atom_matches(r.drop_first()[i - 1], s[t + 1 + (i - 1)]));
                            }
                        }
                    }
                    if atoms_match_at(r, s, t) {
                        assert forall|i: int| 0 <= i < r.drop_first().len() implies
                            atom_matches(#[trigger] r.drop_first()[i], s[t + 1 + i]) by {
                            assert(r.drop_first()[i] == r[i + 1]);
                            assert(atom_matches(r[i + 1], s[t + (i + 1)]));
                        }
                    }
                }
            } else {
                // The character does not match the atom: the slot rejects.
                if c == '.' {
                    assert(a[k][code] == (0nat, 0nat));
                } else {
                    assert(code != c as int) by {
                        if code == c as int {
                            assert(s[t] == c);
                        }
                    }
                    assert(a[k][code] == (0nat, 0nat));
                }
                assert(run_fuel(a, s, 0, t, (fuel - 1) as nat) == false);
                assert(!run_fuel(a, s, k, t, fuel));
                assert(!atoms_match_at(r, s, t));
            }
        }
    }
}

/// The column a starred (or plussed) atom leaves at index `k`: characters the
/// atom matches loop back to `k` and consume, everything else — the
/// end-of-input slot included — falls through to column `k + 1` without
/// consuming.
pub open spec fn loop_col(x: char, k: int) -> Seq<(nat, nat)> {
    Seq::new(
        FSM_COLUMN_SIZE as nat,
        |j: int| if (if x == '.' { 32 <= j <= 126 } else { j == x as int }) {
            (k as nat, 1nat)
        } else {
            ((k + 1) as nat, 0nat)
        },
    )
}

/// The maximal matching run is never longer than the rest of the input.
pub proof fn lemma_max_run_bounds(pc: char, s: Seq<char>, t: int)
    requires
        0 <= t <= s.len(),
    ensures
        0 <= max_run(pc, s, t) <= s.len() - t,
    decreases s.len() - t,
{
    if t < s.len() && atom_matches(pc, s[t]) {
        lemma_max_run_bounds(pc, s, t + 1);
    }
}

/// The run of the machine from a loop column: it consumes exactly the
/// maximal run of matching characters, then behaves as the tail of plain
/// atoms that follows it.
pub proof fn lemma_loop_run(
    a: Seq<Seq<(nat, nat)>>,
    x: char,
    r: Seq<char>,
    k: int,
    s: Seq<char>,
    t: int,
    fuel: nat,
)
    requires
        1 <= k < a.len(),
        0 <= x as int <= 127,
        a[k] == loop_col(x, k),
        atom_tail_shape(a, r, false, k + 1),
        all_atoms(r),
        is_ascii_chars(s),
        is_ascii_chars(r),
        0 <= t <= s.len(),
        fuel >= (s.len() - t) + r.len() + 3,
    ensures
        run_fuel(a, s, k, t, fuel) == atoms_match_at(r, s, t + max_run(x, s, t)),
    decreases s.len() - t,
{
    lemma_max_run_bounds(x, s, t);
    if t >= s.len() {
        // The input ran out on the loop column: one fall-through step to
        // column `k + 1`, which is the accept index exactly when no atoms
        // remain.
        assert(a[k][FSM_LINEEND as int] == ((k + 1) as nat, 0nat));
        assert(run_fuel(a, s, k, t, fuel) == (k + 1 >= a.len()));
        assert(a.len() == k + 1 + r.len());
        assert(atoms_match_at(r, s, t) == (r.len() == 0));
    } else {
        lemma_ascii_code(s[t]);
        let code = s[t] as int;
        if atom_matches(x, s[t]) {
            assert(a[k][code] == (k as nat, 1nat)) by {
                if x != '.' {
                    assert(code == x as int);
                }
            }
            assert(run_fuel(a, s, k, t, fuel) == run_fuel(a, s, k, t + 1, (fuel - 1) as nat));
            lemma_loop_run(a, x, r, k, s, t + 1, (fuel - 1) as nat);
            assert(max_run(x, s, t) == 1 + max_run(x, s, t + 1));
        } else {
            assert(a[k][code] == ((k + 1) as nat, 0nat)) by {
                if x != '.' {
                    if code == x as int {
                        assert(s[t] == x);
                    }
                }
            }
            assert(run_fuel(a, s, k, t, fuel) == run_fuel(a, s, k + 1, t, (fuel - 1) as nat));
            lemma_atoms_run(a, r, false, k + 1, s, t, (fuel - 1) as nat);
            assert(max_run(x, s, t) == 0);
        }
    }
}

/// Appending plain atoms to a pattern appends their columns to its table,
/// one forward-stepping column per atom, and touches nothing before them.
pub proof fn lemma_compile_atoms(q0: Seq<char>, r: Seq<char>)
    requires
        all_atoms(r),
    ensures
        spec_compile(q0 + r).len() == spec_compile(q0).len() + r.len(),
        forall|i: int| 0 <= i < spec_compile(q0).len()
            ==> #[trigger] spec_compile(q0 + r)[i] == spec_compile(q0)[i],
        forall|i: int| 0 <= i < r.len() ==> #[trigger] spec_compile(q0 + r)[spec_compile(
            q0,
        ).len() + i] == atom_col(r[i], (spec_compile(q0).len() + i + 1) as nat),
    decreases r.len(),
{
    if r.len() == 0 {
        assert(q0 + r =~= q0);
    } else {
        lemma_compile_atoms(q0, r.drop_last());
        assert((q0 + r).drop_last() =~= q0 + r.drop_last());
        assert((q0 + r).last() == r.last());
        let c = r.last();
        assert(is_atom(c));
        let b = spec_compile(q0 + r.drop_last());
        assert(spec_compile(q0 + r) == compile_step(b, c));
        assert(compile_step(b, c) == b.push(atom_col(c, (b.len() + 1) as nat)));
    }
}

/// The tail-shape fact, read off `lemma_compile_atoms` for a pattern that is
/// a stem followed by plain atoms and, optionally, a final `$`.
pub proof fn lemma_compile_tail_shape(q0: Seq<char>, r: Seq<char>, dollar: bool, q: Seq<char>)
    requires
        all_atoms(r),
        q == if dollar { (q0 + r).push('$') } else { q0 + r },
    ensures
        spec_compile(q0).len() >= 1 ==> atom_tail_shape(
            spec_compile(q),
            r,
            dollar,
            spec_compile(q0).len() as int,
        ),
        forall|i: int| 0 <= i < spec_compile(q0).len()
            ==> #[trigger] spec_compile(q)[i] == spec_compile(q0)[i],
{
    lemma_compile_atoms(q0, r);
    let a0 = spec_compile(q0);
    let a1 = spec_compile(q0 + r);
    if dollar {
        assert(q.drop_last() =~= q0 + r);
        assert(q.last() == '$');
        assert(spec_compile(q) == compile_step(a1, '$'));
        assert(compile_step(a1, '$') == a1.push(dollar_col((a1.len() + 1) as nat)));
    }
}

/// A pattern of plain atoms, with or without a final `$`, matches an input
/// exactly when the input starts with characters the atoms match one by one
/// and, when the `$` is present, nothing of the input remains after them.
/// For literal atoms this is plain prefix equality; the atom `.` stands for
/// any one printable ASCII character.
pub proof fn lemma_simple_pattern(p: Seq<char>, dollar: bool, s: Seq<char>, q: Seq<char>)
    requires
        all_atoms(p),
        is_ascii_chars(p),
        is_ascii_chars(s),
        q == if dollar { p.push('$') } else { p },
    ensures
        spec_matches(spec_compile(q), s) == (atoms_match_at(p, s, 0)
            && (dollar ==> p.len() == s.len())),
{
    let a = spec_compile(q);
    assert(Seq::<char>::empty() + p =~= p);
    assert(spec_compile(Seq::<char>::empty()) == seq![reject_col()]);
    lemma_compile_tail_shape(Seq::<char>::empty(), p, dollar, q);
    let fuel = match_fuel(a, s);
    assert(a.len() + 1 >= p.len() + 2);
    assert(fuel >= p.len() + 2) by (nonlinear_arith)
        requires
            fuel == (s.len() + 1) * (a.len() + 1),
            a.len() + 1 >= p.len() + 2,
    {}
    lemma_atoms_run(a, p, dollar, 1, s, 0, fuel);
}

/// The pattern `.` alone matches exactly the inputs whose first character is
/// printable ASCII (code 32 to 126), whatever that character is.
pub proof fn lemma_dot_any_printable(s: Seq<char>)
    requires
        is_ascii_chars(s),
    ensures
        spec_matches(spec_compile(seq!['.']), s) == (s.len() >= 1 && 32 <= s[0] as int <= 126),
{
    lemma_simple_pattern(seq!['.'], false, s, seq!['.']);
    assert(atoms_match_at(seq!['.'], s, 0) == (s.len() >= 1 && 32 <= s[0] as int <= 126)) by {
        if s.len() >= 1 && 32 <= s[0] as int <= 126 {
            assert forall|i: int| 0 <= i < seq!['.'].len() implies
                atom_matches(#[trigger] seq!['.'][i], s[0 + i]) by {}
        }
        if atoms_match_at(seq!['.'], s, 0) {
            assert(atom_matches(seq!['.'][0], s[0]));
        }
    }
}

/// `*` on an atom: the machine consumes the maximal run of characters the
/// atom matches — greedily, with no backtracking — and the atoms after the
/// star must then match from that point on.  A `$` after the star is outside
/// this law: when the starred run reaches the end of the input the machine
/// takes only one end-of-input step, so `a*$` rejects `aaa`.
pub proof fn lemma_star(x: char, r: Seq<char>, s: Seq<char>)
    requires
        is_atom(x),
        0 <= x as int <= 127,
        all_atoms(r),
        is_ascii_chars(r),
        is_ascii_chars(s),
    ensures
        spec_matches(spec_compile(seq![x, '*'] + r), s)
            == atoms_match_at(r, s, max_run(x, s, 0)),
{
    let q0 = seq![x, '*'];
    let q = q0 + r;
    let a = spec_compile(q);
    assert(seq![x].drop_last() =~= Seq::<char>::empty());
    assert(seq![x].last() == x);
    assert(spec_compile(Seq::<char>::empty()) == seq![reject_col()]);
    let a1 = spec_compile(seq![x]);
    assert(a1 == seq![reject_col()].push(atom_col(x, 2)));
    assert(q0.drop_last() =~= seq![x]);
    assert(q0.last() == '*');
    assert(spec_compile(q0) == a1.update(1, star_col(a1.last(), 2)));
    assert(a1.last() == atom_col(x, 2));
    assert(star_col(atom_col(x, 2), 2) =~= loop_col(x, 1)) by {
        assert forall|j: int| 0 <= j < FSM_COLUMN_SIZE as int implies
            star_col(atom_col(x, 2), 2)[j] == loop_col(x, 1)[j] by {
            assert(atom_col(x, 2).len() == FSM_COLUMN_SIZE as nat);
        }
    }
    assert(spec_compile(q0).len() == 2);
    assert(spec_compile(q0)[1] == loop_col(x, 1));
    lemma_compile_tail_shape(q0, r, false, q);
    assert(a[1] == loop_col(x, 1));
    let fuel = match_fuel(a, s);
    assert(a.len() == 2 + r.len());
    assert(fuel >= s.len() + r.len() + 3) by (nonlinear_arith)
        requires
            fuel == (s.len() + 1) * (a.len() + 1),
            a.len() == 2 + r.len(),
            s.len() >= 0,
            r.len() >= 0,
    {}
    lemma_loop_run(a, x, r, 1, s, 0, fuel);
}

/// `+` on an atom: the machine demands one matching character first, then
/// behaves as the starred atom does — it consumes the maximal matching run
/// and the atoms after the plus must match from that point on.  As with `*`,
/// a `$` directly after the plus is outside this law.
pub proof fn lemma_plus(x: char, r: Seq<char>, s: Seq<char>)
    requires
        is_atom(x),
        0 <= x as int <= 127,
        all_atoms(r),
        is_ascii_chars(r),
        is_ascii_chars(s),
    ensures
        spec_matches(spec_compile(seq![x, '+'] + r), s) == (s.len() > 0
            && atom_matches(x, s[0]) && atoms_match_at(r, s, 1 + max_run(x, s, 1))),
{
    let q0 = seq![x, '+'];
    let q = q0 + r;
    let a = spec_compile(q);
    assert(seq![x].drop_last() =~= Seq::<char>::empty());
    assert(seq![x].last() == x);
    assert(spec_compile(Seq::<char>::empty()) == seq![reject_col()]);
    let a1 = spec_compile(seq![x]);
    assert(a1 == seq![reject_col()].push(atom_col(x, 2)));
    assert(q0.drop_last() =~= seq![x]);
    assert(q0.last() == '+');
    assert(spec_compile(q0) == a1.push(plus_col(a1.last(), 2)));
    assert(a1.last() == atom_col(x, 2));
    assert(plus_col(atom_col(x, 2), 2) =~= loop_col(x, 2)) by {
        assert forall|j: int| 0 <= j < FSM_COLUMN_SIZE as int implies
            plus_col(atom_col(x, 2), 2)[j] == loop_col(x, 2)[j] by {
            assert(atom_col(x, 2).len() == FSM_COLUMN_SIZE as nat);
        }
    }
    assert(spec_compile(q0).len() == 3);
    assert(spec_compile(q0)[1] == atom_col(x, 2));
    assert(spec_compile(q0)[2] == loop_col(x, 2));
    lemma_compile_tail_shape(q0, r, false, q);
    assert(a[1] == atom_col(x, 2));
    assert(a[2] == loop_col(x, 2));
    assert(a.len() == 3 + r.len());
    let fuel = match_fuel(a, s);
    assert(fuel >= s.len() + r.len() + 4) by (nonlinear_arith)
        requires
            fuel == (s.len() + 1) * (a.len() + 1),
            a.len() == 3 + r.len(),
            s.len() >= 0,
            r.len() >= 0,
    {}
    if s.len() == 0 {
        assert(a[1][FSM_LINEEND as int] == (0nat, 0nat));
        assert(!spec_matches(a, s));
    } else {
        lemma_ascii_code(s[0]);
        let code = s[0] as int;
        if atom_matches(x, s[0]) {
            assert(a[1][code] == (2nat, 1nat)) by {
                if x != '.' {
                    assert(code == x as int);
                }
            }
            assert(spec_matches(a, s) == run_fuel(a, s, 2, 1, (fuel - 1) as nat));
            lemma_loop_run(a, x, r, 2, s, 1, (fuel - 1) as nat);
        } else {
            assert(a[1][code] == (0nat, 0nat)) by {
                if x != '.' {
                    if code == x as int {
                        assert(s[0] == x);
                    }
                }
            }
            assert(run_fuel(a, s, 0, 0, (fuel - 1) as nat) == false);
            assert(!spec_matches(a, s));
        }
    }
}

/// `?` on an atom: when the first input character matches the atom the
/// machine consumes it (greedily — it never reconsiders), otherwise it skips
/// the atom, and the atoms after the `?` must match from the position so
/// chosen.  As with `*`, a `$` directly after the `?` is outside this law.
pub proof fn lemma_quest(x: char, r: Seq<char>, s: Seq<char>)
    requires
        is_atom(x),
        0 <= x as int <= 127,
        all_atoms(r),
        is_ascii_chars(r),
        is_ascii_chars(s),
    ensures
        spec_matches(spec_compile(seq![x, '?'] + r), s) == atoms_match_at(
            r,
            s,
            if s.len() > 0 && atom_matches(x, s[0]) { 1int } else { 0int },
        ),
{
    let q0 = seq![x, '?'];
    let q = q0 + r;
    let a = spec_compile(q);
    assert(seq![x].drop_last() =~= Seq::<char>::empty());
    assert(seq![x].last() == x);
    assert(spec_compile(Seq::<char>::empty()) == seq![reject_col()]);
    let a1 = spec_compile(seq![x]);
    assert(a1 == seq![reject_col()].push(atom_col(x, 2)));
    assert(q0.drop_last() =~= seq![x]);
    assert(q0.last() == '?');
    assert(spec_compile(q0) == a1.update(1, quest_col(a1.last(), 2)));
    assert(a1.last() == atom_col(x, 2));
    assert(spec_compile(q0).len() == 2);
    assert(spec_compile(q0)[1] == quest_col(atom_col(x, 2), 2));
    lemma_compile_tail_shape(q0, r, false, q);
    assert(a[1] == quest_col(atom_col(x, 2), 2));
    assert(a.len() == 2 + r.len());
    let fuel = match_fuel(a, s);
    assert(fuel >= s.len() + r.len() + 3) by (nonlinear_arith)
        requires
            fuel == (s.len() + 1) * (a.len() + 1),
            a.len() == 2 + r.len(),
            s.len() >= 0,
            r.len() >= 0,
    {}
    assert(atom_col(x, 2).len() == FSM_COLUMN_SIZE as nat);
    if s.len() == 0 {
        assert(a[1][FSM_LINEEND as int] == (2nat, 0nat));
        assert(spec_matches(a, s) == (2 >= a.len()));
        assert(atoms_match_at(r, s, 0) == (r.len() == 0));
    } else {
        lemma_ascii_code(s[0]);
        let code = s[0] as int;
        if atom_matches(x, s[0]) {
            assert(a[1][code] == (2nat, 1nat)) by {
                if x != '.' {
                    assert(code == x as int);
                }
            }
            assert(spec_matches(a, s) == run_fuel(a, s, 2, 1, (fuel - 1) as nat));
            lemma_atoms_run(a, r, false, 2, s, 1, (fuel - 1) as nat);
        } else {
            assert(a[1][code] == (2nat, 0nat)) by {
                if x != '.' {
                    if code == x as int {
                        assert(s[0] == x);
                    }
                }
            }
            assert(spec_matches(a, s) == run_fuel(a, s, 2, 0, (fuel - 1) as nat));
            lemma_atoms_run(a, r, false, 2, s, 0, (fuel - 1) as nat);
        }
    }
}

/// Compiling a pattern is a pure function of its text: two automatons
/// compiled from equal pattern strings accept exactly the same inputs.
pub proof fn lemma_compile_deterministic(p1: Seq<char>, p2: Seq<char>, s: Seq<char>)
    requires
        p1 == p2,
    ensures
        spec_compile(p1) == spec_compile(p2),
        spec_matches(spec_compile(p1), s) == spec_matches(spec_compile(p2), s),
{
}

/// On the empty input every automaton decides at once, without one table
/// step: it accepts exactly when the start state's end-of-input transition
/// reaches the accept index, or the table has no start column at all.
pub proof fn lemma_empty_input_decides(a: Seq<Seq<(nat, nat)>>)
    requires
        a.len() >= 1,
    ensures
        spec_matches(a, Seq::<char>::empty()) == ((if 1 < a.len() {
            a[1][FSM_LINEEND as int].0 as int
        } else {
            1int
        }) >= a.len()),
{
}

} // verus!
