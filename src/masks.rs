use vstd::prelude::*;

use crate::board::{
    conflict_free, digit_in_group, digits_ok, group_of, lemma_place_conflict_free, peers,
    prefix_board, CELLS,
};

verus! {

/// Bit `x` of a 9-bit mask: set when digit `x + 1` is present.
pub open spec fn has_bit(m: u16, x: int) -> bool {
    (m >> (x as u16)) & 1u16 == 1u16
}

proof fn lemma_bit_set(m: u16, x: u16, y: u16)
    requires
        m < 512,
        x < 9,
        y < 9,
    ensures
        (m | (1u16 << x)) < 512,
        ((m | (1u16 << x)) >> y) & 1u16 == 1u16 <==> (x == y || (m >> y) & 1u16 == 1u16),
{
    assert((m | (1u16 << x)) < 512) by (bit_vector)
        requires
            m < 512,
            x < 9,
    ;
    assert(((m | (1u16 << x)) >> y) & 1u16 == 1u16 <==> (x == y || (m >> y) & 1u16 == 1u16))
        by (bit_vector)
        requires
            x < 9,
            y < 9,
    ;
}

proof fn lemma_bit_flip_off(m: u16, x: u16, y: u16)
    requires
        m < 512,
        x < 9,
        y < 9,
        (m >> x) & 1u16 == 1u16,
    ensures
        (m ^ (1u16 << x)) < 512,
        ((m ^ (1u16 << x)) >> y) & 1u16 == 1u16 <==> (x != y && (m >> y) & 1u16 == 1u16),
{
    assert((m ^ (1u16 << x)) < 512) by (bit_vector)
        requires
            m < 512,
            x < 9,
    ;
    assert(((m ^ (1u16 << x)) >> y) & 1u16 == 1u16 <==> (x != y && (m >> y) & 1u16 == 1u16))
        by (bit_vector)
        requires
            (m >> x) & 1u16 == 1u16,
            x < 9,
            y < 9,
    ;
}

pub(crate) proof fn lemma_bit_union(a: u16, b: u16, c: u16, x: u16)
    requires
        x < 9,
    ensures
        ((a | b | c) & (1u16 << x)) == 0 <==> !((a >> x) & 1u16 == 1u16) && !((b >> x) & 1u16
            == 1u16) && !((c >> x) & 1u16 == 1u16),
{
    assert(((a | b | c) & (1u16 << x)) == 0 <==> !((a >> x) & 1u16 == 1u16) && !((b >> x) & 1u16
        == 1u16) && !((c >> x) & 1u16 == 1u16)) by (bit_vector);
}

proof fn lemma_bit_zero(y: u16)
    ensures
        !((0u16 >> y) & 1u16 == 1u16),
{
    assert(!((0u16 >> y) & 1u16 == 1u16)) by (bit_vector);
}

/// For each row, column and box, the set of digits placed in it, one bit per digit.
pub struct Masks {
    pub rows: Vec<u16>,
    pub cols: Vec<u16>,
    pub boxes: Vec<u16>,
}

impl Masks {
    pub open spec fn group(&self, kind: int) -> Seq<u16> {
        if kind == 0 {
            self.rows@
        } else if kind == 1 {
            self.cols@
        } else {
            self.boxes@
        }
    }

    /// The masks record exactly the digits placed on board `b`.
    pub open spec fn matches(&self, b: Seq<u8>) -> bool {
        &&& self.rows@.len() == 9
        &&& self.cols@.len() == 9
        &&& self.boxes@.len() == 9
        &&& forall|kind: int, g: int|
            0 <= kind < 3 && 0 <= g < 9 ==> #[trigger] self.group(kind)[g] < 512
        &&& forall|kind: int, g: int, x: int|
            0 <= kind < 3 && 0 <= g < 9 && 0 <= x < 9 ==> (#[trigger] has_bit(self.group(kind)[g], x) <==> digit_in_group(b, kind, g, x + 1))
    }

    /// Masks of the empty board.
    pub fn new() -> (m: Masks)
        ensures
            m.matches(Seq::new(81, |k: int| 0u8)),
    {
        let m = Masks { rows: vec![0u16; 9], cols: vec![0u16; 9], boxes: vec![0u16; 9] };
        let ghost b = Seq::new(81, |k: int| 0u8);
        assert forall|kind: int, g: int, x: int|
            0 <= kind < 3 && 0 <= g < 9 && 0 <= x < 9 implies (#[trigger] has_bit(m.group(kind)[g], x) <==> digit_in_group(b, kind, g, x + 1)) by {
            lemma_bit_zero(x as u16);
        }
        m
    }

    /// The digits (as bits) that cell `k` may not take: those already in its
    /// row, column or box.
    pub fn forbidden(&self, k: usize) -> (f: u16)
        requires
            k < 81,
            self.rows@.len() == 9,
            self.cols@.len() == 9,
            self.boxes@.len() == 9,
        ensures
            f == self.rows@[group_of(0, k as int)] | self.cols@[group_of(1, k as int)]
                | self.boxes@[group_of(2, k as int)],
    {
        let r: usize = k / 9;
        let c: usize = k % 9;
        let bx: usize = (k / 27) * 3 + c / 3;
        self.rows[r] | self.cols[c] | self.boxes[bx]
    }

    /// Records digit `x + 1` at the empty cell `k`, where its row, column and
    /// box do not have it yet.
    pub fn place(&mut self, Ghost(b): Ghost<Seq<u8>>, k: usize, x: u16)
        requires
            old(self).matches(b),
            b.len() == 81,
            k < 81,
            x < 9,
            b[k as int] == 0,
            forall|kind: int|
                0 <= kind < 3 ==> !digit_in_group(b, kind, #[trigger] group_of(kind, k as int), x + 1),
        ensures
            final(self).matches(b.update(k as int, (x + 1) as u8)),
    {
        let r: usize = k / 9;
        let c: usize = k % 9;
        let bx: usize = (k / 27) * 3 + c / 3;
        let ghost m0 = *self;
        let ghost nb = b.update(k as int, (x + 1) as u8);
        let key: u16 = 1u16 << x;
        let v = self.rows[r];
        self.rows.set(r, v | key);
        let v = self.cols[c];
        self.cols.set(c, v | key);
        let v = self.boxes[bx];
        self.boxes.set(bx, v | key);
        assert forall|kind: int, g: int| 0 <= kind < 3 && 0 <= g < 9 implies #[trigger] self.group(kind)[g] < 512 by {
            assert(m0.group(kind)[g] < 512);
            if g == group_of(kind, k as int) {
                lemma_bit_set(m0.group(kind)[g], x, 0);
            }
        }
        assert forall|kind: int, g: int, y: int|
            0 <= kind < 3 && 0 <= g < 9 && 0 <= y < 9 implies (#[trigger] has_bit(self.group(kind)[g], y) <==> digit_in_group(nb, kind, g, y + 1)) by {
            let m = m0.group(kind)[g];
            assert(m < 512);
            assert(has_bit(m, y) <==> digit_in_group(b, kind, g, y + 1));
            if g == group_of(kind, k as int) {
                lemma_bit_set(m, x, y as u16);
                assert(nb[k as int] == x + 1);
            }
            if digit_in_group(b, kind, g, y + 1) {
                let j = choose|j: int| 0 <= j < 81 && group_of(kind, j) == g && #[trigger] b[j] == y + 1;
                assert(nb[j] == y + 1);
            }
            if digit_in_group(nb, kind, g, y + 1) {
                let j = choose|j: int| 0 <= j < 81 && group_of(kind, j) == g && #[trigger] nb[j] == y + 1;
                if j != k {
                    assert(b[j] == y + 1);
                }
            }
        }
    }

    /// Removes digit `x + 1` from cell `k` again.
    pub fn unplace(&mut self, Ghost(b): Ghost<Seq<u8>>, k: usize, x: u16)
        requires
            old(self).matches(b),
            b.len() == 81,
            conflict_free(b),
            k < 81,
            x < 9,
            b[k as int] == x + 1,
        ensures
            final(self).matches(b.update(k as int, 0u8)),
    {
        let r: usize = k / 9;
        let c: usize = k % 9;
        let bx: usize = (k / 27) * 3 + c / 3;
        let ghost m0 = *self;
        let ghost nb = b.update(k as int, 0u8);
        assert forall|kind: int| 0 <= kind < 3 implies #[trigger] has_bit(m0.group(kind)[group_of(kind, k as int)], x as int) by {
            assert(b[k as int] == x + 1);
            assert(digit_in_group(b, kind, group_of(kind, k as int), x + 1));
        }
        let key: u16 = 1u16 << x;
        let v = self.rows[r];
        self.rows.set(r, v ^ key);
        let v = self.cols[c];
        self.cols.set(c, v ^ key);
        let v = self.boxes[bx];
        self.boxes.set(bx, v ^ key);
        assert forall|kind: int, g: int| 0 <= kind < 3 && 0 <= g < 9 implies #[trigger] self.group(kind)[g] < 512 by {
            assert(m0.group(kind)[g] < 512);
            if g == group_of(kind, k as int) {
                assert(has_bit(m0.group(kind)[group_of(kind, k as int)], x as int));
                lemma_bit_flip_off(m0.group(kind)[g], x, 0);
            }
        }
        assert forall|kind: int, g: int, y: int|
            0 <= kind < 3 && 0 <= g < 9 && 0 <= y < 9 implies (#[trigger] has_bit(self.group(kind)[g], y) <==> digit_in_group(nb, kind, g, y + 1)) by {
            let m = m0.group(kind)[g];
            assert(m < 512);
            assert(has_bit(m, y) <==> digit_in_group(b, kind, g, y + 1));
            if g == group_of(kind, k as int) {
                assert(has_bit(m0.group(kind)[group_of(kind, k as int)], x as int));
                lemma_bit_flip_off(m, x, y as u16);
            }
            if digit_in_group(b, kind, g, y + 1) && !(g == group_of(kind, k as int) && y == x) {
                let j = choose|j: int| 0 <= j < 81 && group_of(kind, j) == g && #[trigger] b[j] == y + 1;
                assert(nb[j] == y + 1);
            }
            if digit_in_group(nb, kind, g, y + 1) {
                let j = choose|j: int| 0 <= j < 81 && group_of(kind, j) == g && #[trigger] nb[j] == y + 1;
                assert(j != k);
                assert(b[j] == y + 1);
                if g == group_of(kind, k as int) && y == x {
                    assert(peers(j, k as int));
                    assert(b[k as int] != 0);
                }
            }
        }
    }

    /// Masks of board `b`, or `None` when a row, column or box of `b` repeats a digit.
    pub fn from_board(b: &Vec<u8>) -> (r: Option<Masks>)
        requires
            digits_ok(b@),
        ensures
            r is Some <==> conflict_free(b@),
            r matches Some(m) ==> m.matches(b@),
    {
        let mut m = Masks::new();
        assert(prefix_board(b@, 0) =~= Seq::new(81, |k: int| 0u8));
        let mut k: usize = 0;
        while k < CELLS
            invariant
                digits_ok(b@),
                k <= 81,
                m.matches(prefix_board(b@, k as int)),
                conflict_free(prefix_board(b@, k as int)),
            decreases 81 - k,
        {
            let ghost pb = prefix_board(b@, k as int);
            let d = b[k];
            if d != 0 {
                let x: u16 = (d - 1) as u16;
                let f = m.forbidden(k);
                proof {
                    lemma_bit_union(
                        m.rows@[group_of(0, k as int)],
                        m.cols@[group_of(1, k as int)],
                        m.boxes@[group_of(2, k as int)],
                        x,
                    );
                    assert(m.group(0)[group_of(0, k as int)] == m.rows@[group_of(0, k as int)]);
                    assert(m.group(1)[group_of(1, k as int)] == m.cols@[group_of(1, k as int)]);
                    assert(m.group(2)[group_of(2, k as int)] == m.boxes@[group_of(2, k as int)]);
                }
                if f & (1u16 << x) != 0 {
                    proof {
                        let kind: int = if has_bit(m.group(0)[group_of(0, k as int)], x as int) {
                            0
                        } else if has_bit(m.group(1)[group_of(1, k as int)], x as int) {
                            1
                        } else {
                            2
                        };
                        assert(has_bit(m.group(kind)[group_of(kind, k as int)], x as int));
                        assert(digit_in_group(pb, kind, group_of(kind, k as int), x + 1));
                        let j = choose|j: int|
                            0 <= j < 81 && group_of(kind, j) == group_of(kind, k as int)
                                && #[trigger] pb[j] == x + 1;
                        assert(j < k);
                        assert(peers(j, k as int));
                        assert(b@[j] == b@[k as int]);
                    }
                    return None;
                }
                assert forall|kind: int| 0 <= kind < 3 implies !digit_in_group(
                    pb,
                    kind,
                    #[trigger] group_of(kind, k as int),
                    x + 1,
                ) by {
                    assert(!has_bit(m.group(kind)[group_of(kind, k as int)], x as int));
                }
                m.place(Ghost(pb), k, x);
                proof {
                    lemma_place_conflict_free(pb, k as int, d);
                    assert(pb.update(k as int, d) =~= prefix_board(b@, k + 1));
                }
            } else {
                assert(pb =~= prefix_board(b@, k + 1));
            }
            k = k + 1;
        }
        assert(prefix_board(b@, 81) =~= b@);
        Some(m)
    }
}

} // verus!
