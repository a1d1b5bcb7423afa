//! Canonical byte form of a board, and the equality built on it.
//!
//! Two boards describe the same position when they differ only by a
//! permutation of the interchangeable free cells or by which physical
//! column index holds which content sequence. The canonical form erases
//! both: foundation bytes in fixed suit order, cell bytes sorted
//! ascending, and the per-column byte rows sorted lexicographically.

use vstd::prelude::*;
use vstd::relations::sorted_by;
use vstd::relations::total_ordering;
use vstd::seq_lib::lemma_multiset_commutative;
use vstd::seq_lib::lemma_sorted_unique;

use crate::board::Board;
use crate::board::BoardV;
use crate::card::Card;

verus! {

/// The byte that stands for a slot's content: the card's value, or a
/// sentinel for an empty slot.
pub open spec fn slot_byte(oc: Option<Card>) -> u8 {
    match oc {
        None => 255,
        Some(c) => c.value,
    }
}

/// The slot-to-byte map, as a function value.
pub open spec fn slot_byte_fn() -> spec_fn(Option<Card>) -> u8 {
    |oc: Option<Card>| slot_byte(oc)
}

/// The byte row that stands for a sequence of slots.
pub open spec fn slot_bytes(s: Seq<Option<Card>>) -> Seq<u8> {
    s.map_values(slot_byte_fn())
}

/// Ascending order on bytes.
pub open spec fn u8_le() -> spec_fn(u8, u8) -> bool {
    |a: u8, b: u8| a <= b
}

/// Lexicographic order on byte rows; a proper prefix comes first.
pub open spec fn lex_le_seq(a: Seq<u8>, b: Seq<u8>) -> bool
    decreases a.len(),
{
    if a.len() == 0 {
        true
    } else if b.len() == 0 {
        false
    } else if a[0] < b[0] {
        true
    } else if a[0] > b[0] {
        false
    } else {
        lex_le_seq(a.drop_first(), b.drop_first())
    }
}

/// Lexicographic order on byte rows, as a relation value.
pub open spec fn lex_le() -> spec_fn(Seq<u8>, Seq<u8>) -> bool {
    |a: Seq<u8>, b: Seq<u8>| lex_le_seq(a, b)
}

/// The column-to-byte-row map, as a function value.
pub open spec fn slot_bytes_fn() -> spec_fn(Seq<Option<Card>>) -> Seq<u8> {
    |col: Seq<Option<Card>>| slot_bytes(col)
}

/// The byte rows of a board's columns, in physical order.
pub open spec fn column_bytes(b: BoardV) -> Seq<Seq<u8>> {
    b.columns.map_values(slot_bytes_fn())
}

/// The canonical byte form of a board: foundation bytes in fixed suit
/// order, cell bytes sorted ascending, then the column byte rows sorted
/// lexicographically and laid out one after the other. Boards are equal
/// exactly when their canonical forms are equal.
pub open spec fn canon(b: BoardV) -> Seq<u8> {
    slot_bytes(b.foundation) + slot_bytes(b.cells).sort_by(u8_le()) + column_bytes(b).sort_by(
        lex_le(),
    ).flatten()
}

/// Byte order is a total order.
pub proof fn lemma_u8_le_total()
    ensures
        total_ordering(u8_le()),
{
    assert forall|x: u8| #[trigger] u8_le()(x, x) by {}
}

/// Lexicographic order is reflexive.
proof fn lemma_lex_refl(a: Seq<u8>)
    ensures
        lex_le_seq(a, a),
    decreases a.len(),
{
    if a.len() > 0 {
        lemma_lex_refl(a.drop_first());
    }
}

/// Lexicographic order is antisymmetric.
proof fn lemma_lex_antisym(a: Seq<u8>, b: Seq<u8>)
    requires
        lex_le_seq(a, b),
        lex_le_seq(b, a),
    ensures
        a == b,
    decreases a.len(),
{
    if a.len() == 0 {
        assert(b.len() == 0);
        assert(a =~= b);
    } else {
        assert(b.len() > 0);
        assert(a[0] == b[0]);
        lemma_lex_antisym(a.drop_first(), b.drop_first());
        assert(a.len() == b.len());
        assert forall|i: int| 0 <= i < a.len() implies a[i] == b[i] by {
            if i > 0 {
                assert(a[i] == a.drop_first()[i - 1]);
                assert(b[i] == b.drop_first()[i - 1]);
            }
        }
        assert(a =~= b);
    }
}

/// Lexicographic order is transitive.
proof fn lemma_lex_trans(a: Seq<u8>, b: Seq<u8>, c: Seq<u8>)
    requires
        lex_le_seq(a, b),
        lex_le_seq(b, c),
    ensures
        lex_le_seq(a, c),
    decreases a.len(),
{
    if a.len() > 0 {
        assert(b.len() > 0);
        assert(c.len() > 0);
        if a[0] == b[0] && b[0] == c[0] {
            lemma_lex_trans(a.drop_first(), b.drop_first(), c.drop_first());
        }
    }
}

/// Any two byte rows are comparable lexicographically.
proof fn lemma_lex_connected(a: Seq<u8>, b: Seq<u8>)
    ensures
        lex_le_seq(a, b) || lex_le_seq(b, a),
    decreases a.len(),
{
    if a.len() > 0 && b.len() > 0 && a[0] == b[0] {
        lemma_lex_connected(a.drop_first(), b.drop_first());
    }
}

/// Lexicographic order on byte rows is a total order.
pub proof fn lemma_lex_le_total()
    ensures
        total_ordering(lex_le()),
{
    assert forall|x: Seq<u8>| #[trigger] lex_le()(x, x) by {
        lemma_lex_refl(x);
    }
    assert forall|x: Seq<u8>, y: Seq<u8>| #[trigger] lex_le()(x, y) && #[trigger] lex_le()(
        y,
        x,
    ) implies x == y by {
        lemma_lex_antisym(x, y);
    }
    assert forall|x: Seq<u8>, y: Seq<u8>, z: Seq<u8>|
        #[trigger] lex_le()(x, y) && #[trigger] lex_le()(y, z) implies lex_le()(x, z) by {
        lemma_lex_trans(x, y, z);
    }
    assert forall|x: Seq<u8>, y: Seq<u8>| #[trigger] lex_le()(x, y) || #[trigger] lex_le()(
        y,
        x,
    ) by {
        lemma_lex_connected(x, y);
    }
}

/// Inserting an element anywhere adds exactly it to a sequence's multiset.
pub proof fn lemma_insert_multiset<A>(s: Seq<A>, i: int, x: A)
    requires
        0 <= i <= s.len(),
    ensures
        s.insert(i, x).to_multiset() =~= s.to_multiset().insert(x),
{
    broadcast use vstd::seq_lib::group_to_multiset_ensures;

    let left = s.subrange(0, i);
    let right = s.subrange(i, s.len() as int);
    assert(s.insert(i, x) == left.push(x) + right);
    lemma_multiset_commutative(left.push(x), right);
    lemma_multiset_commutative(left, right);
    assert(s =~= left + right);
}

/// Mapping a function over two sequences with the same multiset yields
/// two sequences with the same multiset.
proof fn lemma_map_values_multiset<A, B>(s1: Seq<A>, s2: Seq<A>, f: spec_fn(A) -> B)
    requires
        s1.to_multiset() == s2.to_multiset(),
    ensures
        s1.map_values(f).to_multiset() == s2.map_values(f).to_multiset(),
    decreases s1.len(),
{
    broadcast use vstd::seq_lib::group_to_multiset_ensures;

    if s1.len() == 0 {
        assert(s1.to_multiset().len() == s1.len());
        assert(s2.to_multiset().len() == s2.len());
        assert(s2.len() == 0);
        assert(s1.map_values(f) =~= s2.map_values(f));
    } else {
        let x = s1[0];
        assert(s1.contains(x));
        assert(s2.to_multiset().count(x) > 0);
        assert(s2.contains(x));
        let i = choose|i: int| 0 <= i < s2.len() && s2[i] == x;
        assert(s1.remove(0).to_multiset() =~= s1.to_multiset().remove(x));
        assert(s2.remove(i).to_multiset() =~= s2.to_multiset().remove(x));
        lemma_map_values_multiset(s1.remove(0), s2.remove(i), f);
        let m1 = s1.map_values(f);
        let m2 = s2.map_values(f);
        assert(s1.remove(0).map_values(f) =~= m1.remove(0));
        assert(s2.remove(i).map_values(f) =~= m2.remove(i));
        assert(m1[0] == f(x));
        assert(m2[i] == f(x));
        assert(m1.remove(0).to_multiset() =~= m1.to_multiset().remove(f(x)));
        assert(m2.remove(i).to_multiset() =~= m2.to_multiset().remove(f(x)));
        assert(m1.to_multiset() =~= m2.to_multiset()) by {
            assert(m1.contains(f(x)));
            assert(m2.contains(f(x)));
            assert(m1.to_multiset().count(f(x)) > 0);
            assert(m2.to_multiset().count(f(x)) > 0);
            assert forall|y: B| true implies m1.to_multiset().count(y) == m2.to_multiset().count(
                y,
            ) by {
                if y == f(x) {
                    assert(m1.to_multiset().count(y) == m1.to_multiset().remove(f(x)).count(y)
                        + 1);
                    assert(m2.to_multiset().count(y) == m2.to_multiset().remove(f(x)).count(y)
                        + 1);
                } else {
                    assert(m1.to_multiset().count(y) == m1.to_multiset().remove(f(x)).count(y));
                    assert(m2.to_multiset().count(y) == m2.to_multiset().remove(f(x)).count(y));
                }
            }
        }
    }
}

/// Canonical equality is an equivalence: reflexive, symmetric and
/// transitive, since it is equality of the canonical byte forms.
pub proof fn lemma_canonical_equality_equivalence(a: BoardV, b: BoardV, c: BoardV)
    ensures
        canon(a) == canon(a),
        canon(a) == canon(b) ==> canon(b) == canon(a),
        canon(a) == canon(b) && canon(b) == canon(c) ==> canon(a) == canon(c),
{
}

/// Boards that differ only by a permutation of the free-cell contents, or
/// by which physical column index holds which content sequence, have the
/// same canonical form — and so compare equal and hash equal.
pub proof fn lemma_canon_permutation_invariant(a: BoardV, b: BoardV)
    requires
        a.foundation == b.foundation,
        a.cells.to_multiset() == b.cells.to_multiset(),
        a.columns.to_multiset() == b.columns.to_multiset(),
    ensures
        canon(a) == canon(b),
{
    lemma_u8_le_total();
    lemma_lex_le_total();
    lemma_map_values_multiset(a.cells, b.cells, slot_byte_fn());
    lemma_map_values_multiset(a.columns, b.columns, slot_bytes_fn());
    slot_bytes(a.cells).lemma_sort_by_ensures(u8_le());
    slot_bytes(b.cells).lemma_sort_by_ensures(u8_le());
    lemma_sorted_unique(
        slot_bytes(a.cells).sort_by(u8_le()),
        slot_bytes(b.cells).sort_by(u8_le()),
        u8_le(),
    );
    column_bytes(a).lemma_sort_by_ensures(lex_le());
    column_bytes(b).lemma_sort_by_ensures(lex_le());
    lemma_sorted_unique(
        column_bytes(a).sort_by(lex_le()),
        column_bytes(b).sort_by(lex_le()),
        lex_le(),
    );
}

/// Whether two byte vectors hold the same bytes.
pub fn bytes_eq(a: &Vec<u8>, b: &Vec<u8>) -> (r: bool)
    ensures
        r == (a@ == b@),
{
    if a.len() != b.len() {
        return false;
    }
    let mut i: usize = 0;
    while i < a.len()
        invariant
            i <= a@.len(),
            a@.len() == b@.len(),
            forall|j: int| 0 <= j < i ==> a@[j] == b@[j],
        decreases a@.len() - i,
    {
        if a[i] != b[i] {
            return false;
        }
        i += 1;
    }
    proof {
        assert(a@ =~= b@);
    }
    true
}

impl PartialEq for Board {
    /// Two boards are equal when their canonical byte forms are equal:
    /// equality is permutation-invariant by construction.
    fn eq(&self, other: &Self) -> (r: bool) {
        let a = self.hash_bytes();
        let b = other.hash_bytes();
        bytes_eq(&a, &b)
    }
}

impl Eq for Board {

}

impl vstd::std_specs::cmp::PartialEqSpecImpl for Board {
    open spec fn obeys_eq_spec() -> bool {
        true
    }

    open spec fn eq_spec(&self, other: &Board) -> bool {
        canon(self@) == canon(other@)
    }
}

/// Appending one more row extends a flattening by exactly that row.
proof fn lemma_flatten_push(s: Seq<Seq<u8>>, x: Seq<u8>)
    ensures
        s.push(x).flatten() =~= s.flatten() + x,
    decreases s.len(),
{
    if s.len() == 0 {
        assert(s.push(x).drop_first() =~= Seq::<Seq<u8>>::empty());
        assert(s.push(x).first() == x);
        assert(Seq::<Seq<u8>>::empty().flatten() =~= Seq::<u8>::empty());
        assert(s.push(x).flatten() =~= x + Seq::<u8>::empty());
        assert(x + Seq::<u8>::empty() =~= x);
        assert(s.flatten() + x =~= x);
    } else {
        assert(s.push(x).drop_first() =~= s.drop_first().push(x));
        lemma_flatten_push(s.drop_first(), x);
        assert(s.push(x).flatten() =~= s[0] + (s.drop_first().flatten() + x));
        assert(s.flatten() + x =~= s[0] + (s.drop_first().flatten() + x));
    }
}

/// Sorts bytes ascending by insertion into an already-sorted output.
#[verifier::loop_isolation(false)]
#[verifier::rlimit(50)]
fn sort_bytes(v: Vec<u8>) -> (r: Vec<u8>)
    ensures
        r@ == v@.sort_by(u8_le()),
{
    proof {
        lemma_u8_le_total();
    }
    let mut out: Vec<u8> = Vec::new();
    let mut i: usize = 0;
    proof {
        assert(v@.subrange(0, 0) =~= out@);
    }
    while i < v.len()
        invariant
            i <= v@.len(),
            sorted_by(out@, u8_le()),
            out@.to_multiset() == v@.subrange(0, i as int).to_multiset(),
        decreases v@.len() - i,
    {
        let x = v[i];
        let mut k: usize = 0;
        while k < out.len() && out[k] <= x
            invariant
                k <= out@.len(),
                forall|t: int| 0 <= t < k ==> out@[t] <= x,
            decreases out@.len() - k,
        {
            k += 1;
        }
        let ghost pre = out@;
        out.insert(k, x);
        proof {
            broadcast use vstd::seq_lib::group_to_multiset_ensures;

            pre.insert_ensures(k as int, x);
            lemma_insert_multiset(pre, k as int, x);
            assert(sorted_by(out@, u8_le())) by {
                assert forall|a: int, b: int| 0 <= a < b < out@.len() implies u8_le()(
                    out@[a],
                    out@[b],
                ) by {
                    if a < k && b == k {
                        assert(out@[b] == x && out@[a] == pre[a]);
                    } else if a == k && b > k {
                        assert(out@[a] == x && out@[b] == pre[b - 1] && pre[k as int] > x);
                        if (k as int) < b - 1 {
                            assert(u8_le()(pre[k as int], pre[b - 1]));
                        }
                    } else if a < k && b > k {
                        if a < b - 1 {
                            assert(u8_le()(pre[a], pre[b - 1]));
                        }
                    }
                }
            }
            assert(v@.subrange(0, i + 1) =~= v@.subrange(0, i as int).push(v@[i as int]));
        }
        i += 1;
    }
    proof {
        assert(v@.subrange(0, v@.len() as int) =~= v@);
        v@.lemma_sort_by_ensures(u8_le());
        lemma_sorted_unique(out@, v@.sort_by(u8_le()), u8_le());
    }
    out
}

/// Whether `a` comes no later than `b` in lexicographic order.
#[verifier::loop_isolation(false)]
fn lex_le_bytes(a: &Vec<u8>, b: &Vec<u8>) -> (r: bool)
    ensures
        r == lex_le_seq(a@, b@),
{
    let mut i: usize = 0;
    proof {
        assert(a@.skip(0) =~= a@);
        assert(b@.skip(0) =~= b@);
    }
    while i < a.len() && i < b.len()
        invariant
            i <= a@.len(),
            i <= b@.len(),
            lex_le_seq(a@, b@) == lex_le_seq(a@.skip(i as int), b@.skip(i as int)),
        decreases a@.len() - i,
    {
        let x = a[i];
        let y = b[i];
        proof {
            assert(a@.skip(i as int)[0] == a@[i as int]);
            assert(b@.skip(i as int)[0] == b@[i as int]);
        }
        if x < y {
            return true;
        }
        if x > y {
            return false;
        }
        proof {
            assert(a@.skip(i as int).drop_first() =~= a@.skip(i + 1));
            assert(b@.skip(i as int).drop_first() =~= b@.skip(i + 1));
        }
        i += 1;
    }
    proof {
        if a@.len() <= b@.len() {
            assert(a@.skip(i as int).len() == 0);
        } else {
            assert(b@.skip(i as int).len() == 0);
            assert(a@.skip(i as int).len() > 0);
        }
    }
    a.len() <= b.len()
}

/// The byte rows a vector of byte vectors stands for.
pub open spec fn deep_rows(s: Seq<Vec<u8>>) -> Seq<Seq<u8>> {
    s.map_values(|x: Vec<u8>| x@)
}

/// Sorts byte rows lexicographically by insertion into an already-sorted
/// output.
#[verifier::loop_isolation(false)]
fn sort_byte_rows(v: Vec<Vec<u8>>) -> (r: Vec<Vec<u8>>)
    ensures
        deep_rows(r@) == deep_rows(v@).sort_by(lex_le()),
{
    proof {
        lemma_lex_le_total();
    }
    let mut out: Vec<Vec<u8>> = Vec::new();
    let mut i: usize = 0;
    proof {
        assert(deep_rows(v@.subrange(0, 0)) =~= deep_rows(out@));
    }
    while i < v.len()
        invariant
            i <= v@.len(),
            sorted_by(deep_rows(out@), lex_le()),
            deep_rows(out@).to_multiset() == deep_rows(v@.subrange(0, i as int)).to_multiset(),
        decreases v@.len() - i,
    {
        let x: Vec<u8> = v[i].clone();
        proof {
            assert(x@ =~= v@[i as int]@);
        }
        let mut k: usize = 0;
        while k < out.len() && lex_le_bytes(&out[k], &x)
            invariant
                k <= out@.len(),
                x@ == v@[i as int]@,
                forall|t: int| 0 <= t < k ==> lex_le()(deep_rows(out@)[t], x@),
            decreases out@.len() - k,
        {
            k += 1;
        }
        let ghost pre = deep_rows(out@);
        out.insert(k, x);
        proof {
            broadcast use vstd::seq_lib::group_to_multiset_ensures;

            assert(deep_rows(out@) =~= pre.insert(k as int, v@[i as int]@));
            pre.insert_ensures(k as int, v@[i as int]@);
            lemma_insert_multiset(pre, k as int, v@[i as int]@);
            assert(sorted_by(deep_rows(out@), lex_le())) by {
                let cur = deep_rows(out@);
                let xv = v@[i as int]@;
                assert forall|a: int, b: int| 0 <= a < b < cur.len() implies lex_le()(
                    cur[a],
                    cur[b],
                ) by {
                    if a < k && b == k {
                        assert(cur[b] == xv && cur[a] == pre[a]);
                    } else if a == k && b > k {
                        assert(cur[a] == xv && cur[b] == pre[b - 1]);
                        assert(!lex_le()(pre[k as int], xv));
                        lemma_lex_connected(xv, pre[k as int]);
                        if (k as int) < b - 1 {
                            assert(lex_le()(pre[k as int], pre[b - 1]));
                            lemma_lex_trans(xv, pre[k as int], pre[b - 1]);
                        }
                    } else if a < k && b > k {
                        if a < b - 1 {
                            assert(lex_le()(pre[a], pre[b - 1]));
                        } else {
                            lemma_lex_refl(pre[a]);
                        }
                    }
                }
            }
            assert(deep_rows(v@.subrange(0, i + 1)) =~= deep_rows(v@.subrange(0, i as int)).push(
                v@[i as int]@,
            ));
        }
        i += 1;
    }
    proof {
        assert(v@.subrange(0, v@.len() as int) =~= v@);
        deep_rows(v@).lemma_sort_by_ensures(lex_le());
        lemma_sorted_unique(deep_rows(out@), deep_rows(v@).sort_by(lex_le()), lex_le());
    }
    out
}

impl Board {
    /// The canonical byte form of this board, used for equality and for
    /// the solver's visited set: positions that differ only by the order
    /// of cells or of column identities produce the same bytes.
    #[verifier::loop_isolation(false)]
    pub fn hash_bytes(&self) -> (r: Vec<u8>)
        ensures
            r@ == canon(self@),
    {
        let mut bytes: Vec<u8> = Vec::new();
        let mut s: usize = 0;
        while s < crate::board::foundation::N_CARDS
            invariant
                s <= crate::board::foundation::N_CARDS,
                bytes@ == slot_bytes(self@.foundation).take(s as int),
            decreases crate::board::foundation::N_CARDS - s,
        {
            let b = match self.foundation.cards[s] {
                None => 255u8,
                Some(c) => c.value,
            };
            bytes.push(b);
            proof {
                assert(bytes@ =~= slot_bytes(self@.foundation).take(s + 1));
            }
            s += 1;
        }
        proof {
            assert(slot_bytes(self@.foundation).take(4) =~= slot_bytes(self@.foundation));
        }
        let mut cell_bytes: Vec<u8> = Vec::new();
        let mut j: usize = 0;
        while j < crate::board::N_CELLS
            invariant
                j <= crate::board::N_CELLS,
                cell_bytes@ == slot_bytes(self@.cells).take(j as int),
            decreases crate::board::N_CELLS - j,
        {
            let b = match self.cells.cards[j] {
                None => 255u8,
                Some(c) => c.value,
            };
            cell_bytes.push(b);
            proof {
                assert(cell_bytes@ =~= slot_bytes(self@.cells).take(j + 1));
            }
            j += 1;
        }
        proof {
            assert(slot_bytes(self@.cells).take(8) =~= slot_bytes(self@.cells));
        }
        let mut sorted_cells = sort_bytes(cell_bytes);
        bytes.append(&mut sorted_cells);

        let mut rows: Vec<Vec<u8>> = Vec::new();
        let mut i: usize = 0;
        while i < crate::board::N_COLUMNS
            invariant
                i <= crate::board::N_COLUMNS,
                deep_rows(rows@) == column_bytes(self@).take(i as int),
            decreases crate::board::N_COLUMNS - i,
        {
            let mut row: Vec<u8> = Vec::new();
            let mut t: usize = 0;
            while t < crate::board::column::MAX_COLUMN_SIZE
                invariant
                    t <= crate::board::column::MAX_COLUMN_SIZE,
                    i < crate::board::N_COLUMNS,
                    row@ == slot_bytes(self@.columns[i as int]).take(t as int),
                decreases crate::board::column::MAX_COLUMN_SIZE - t,
            {
                let b = match self.columns[i].cards[t] {
                    None => 255u8,
                    Some(c) => c.value,
                };
                row.push(b);
                proof {
                    assert(row@ =~= slot_bytes(self@.columns[i as int]).take(t + 1));
                }
                t += 1;
            }
            proof {
                assert(row@ =~= slot_bytes(self@.columns[i as int]));
            }
            rows.push(row);
            proof {
                assert(deep_rows(rows@) =~= column_bytes(self@).take(i + 1));
            }
            i += 1;
        }
        proof {
            assert(column_bytes(self@).take(8) =~= column_bytes(self@));
        }
        let sorted_rows = sort_byte_rows(rows);
        let ghost rows_sorted = column_bytes(self@).sort_by(lex_le());
        let mut fi: usize = 0;
        while fi < sorted_rows.len()
            invariant
                fi <= sorted_rows@.len(),
                deep_rows(sorted_rows@) == rows_sorted,
                bytes@ == slot_bytes(self@.foundation) + slot_bytes(self@.cells).sort_by(u8_le())
                    + rows_sorted.take(fi as int).flatten(),
            decreases sorted_rows@.len() - fi,
        {
            let mut row = sorted_rows[fi].clone();
            proof {
                assert(row@ =~= rows_sorted[fi as int]);
            }
            bytes.append(&mut row);
            proof {
                assert(rows_sorted.take(fi + 1) =~= rows_sorted.take(fi as int).push(
                    rows_sorted[fi as int],
                ));
                lemma_flatten_push(rows_sorted.take(fi as int), rows_sorted[fi as int]);
            }
            fi += 1;
        }
        proof {
            assert(rows_sorted.take(rows_sorted.len() as int) =~= rows_sorted);
        }
        bytes
    }
}

} // verus!
