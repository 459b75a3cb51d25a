//! Shared plumbing: the error taxonomy, string helpers, the binary-search
//! primitives over a comparator, and row selections.
use core::cmp::Ordering;
use vstd::prelude::*;
use vstd::string::StringSliceAdditionalSpecFns;

verus! {

/// The failures the engine reports to its caller.
#[derive(Debug, Clone, PartialEq, Eq)]
pub enum PBaseError {
    InvalidTableSizeError,
    BadFileWriteLength,
    BadToken(String),
    NoMoreTokens,
    UnexpextedToken(String),
    TableNotFound(String),
}

/// Byte-for-byte string equality, which coincides with equality of the
/// character sequences because the UTF-8 encoding is injective.
pub fn str_eq(a: &str, b: &str) -> (r: bool)
    ensures
        r == (a@ == b@),
{
    let ab = a.as_bytes();
    let bb = b.as_bytes();
    proof {
        vstd::utf8::encode_utf8_decode_utf8(a@);
        vstd::utf8::encode_utf8_decode_utf8(b@);
    }
    if ab.len() != bb.len() {
        return false;
    }
    let n = ab.len();
    let mut i: usize = 0;
    while i < n
        invariant
            0 <= i <= n,
            n == ab@.len() == bb@.len(),
            ab@ == a.spec_bytes(),
            bb@ == b.spec_bytes(),
            vstd::utf8::decode_utf8(a.spec_bytes()) == a@,
            vstd::utf8::decode_utf8(b.spec_bytes()) == b@,
            forall|k: int| 0 <= k < i ==> ab@[k] == bb@[k],
        decreases n - i,
    {
        let x = *vstd::slice::slice_index_get(ab, i);
        let y = *vstd::slice::slice_index_get(bb, i);
        if x != y {
            return false;
        }
        i += 1;
    }
    proof {
        assert(ab@ =~= bb@);
    }
    true
}

/// Orderings ranked `Less`, then `Equal`, then `Greater`.
pub open spec fn ord_le(a: Ordering, b: Ordering) -> bool {
    match (a, b) {
        (Ordering::Less, _) => true,
        (Ordering::Equal, Ordering::Less) => false,
        (Ordering::Equal, _) => true,
        (Ordering::Greater, Ordering::Greater) => true,
        (Ordering::Greater, _) => false,
    }
}

/// The comparator accepts every probe strictly between the bounds.
pub open spec fn pred_callable<F: Fn(i32) -> Ordering>(pred: F, lhs: int, rhs: int) -> bool {
    forall|i: i32| lhs < i < rhs ==> #[trigger] call_requires(pred, (i,))
}

/// The comparator's answer depends on the probe alone.
pub open spec fn pred_deterministic<F: Fn(i32) -> Ordering>(pred: F) -> bool {
    forall|i: i32, r1: Ordering, r2: Ordering|
        call_ensures(pred, (i,), r1) && call_ensures(pred, (i,), r2) ==> r1 == r2
}

/// Answers never step backwards as the probe grows: the probed list is
/// sorted relative to the comparator's target.
pub open spec fn pred_sorted<F: Fn(i32) -> Ordering>(pred: F, lhs: int, rhs: int) -> bool {
    forall|i: i32, j: i32, ri: Ordering, rj: Ordering|
        lhs < i <= j < rhs && call_ensures(pred, (i,), ri) && call_ensures(pred, (j,), rj)
            ==> ord_le(ri, rj)
}

/// Finds the exclusive bounds around the band of probes on which the
/// comparator answers `Equal`.
///
/// The first result is the last probe answering `Less` (or `lhs` when
/// there is none); the second is the first probe answering `Greater`
/// (or `rhs`); every probe strictly between them answers `Equal`.
pub fn binary_narrow_to_range_exclusive<F: Fn(i32) -> Ordering>(lhs: i32, rhs: i32, pred: F) -> (out: (
    i32,
    i32,
))
    requires
        -1 <= lhs <= rhs < 0x4000_0000,
        pred_callable(pred, lhs as int, rhs as int),
        pred_deterministic(pred),
        pred_sorted(pred, lhs as int, rhs as int),
    ensures
        lhs <= out.0 <= out.1 <= rhs,
        lhs < rhs ==> out.0 < out.1,
        forall|i: i32, r: Ordering|
            lhs < i <= out.0 && #[trigger] call_ensures(pred, (i,), r) ==> r == Ordering::Less,
        forall|i: i32, r: Ordering|
            out.1 <= i < rhs && #[trigger] call_ensures(pred, (i,), r) ==> r == Ordering::Greater,
        forall|i: i32, r: Ordering|
            out.0 < i < out.1 && #[trigger] call_ensures(pred, (i,), r) ==> r == Ordering::Equal,
        out.0 == lhs || exists|r: Ordering|
            #[trigger] call_ensures(pred, (out.0,), r) && r == Ordering::Less,
        out.1 == rhs || exists|r: Ordering|
            #[trigger] call_ensures(pred, (out.1,), r) && r == Ordering::Greater,
        out.0 + 1 < out.1 ==> exists|r: Ordering|
            #[trigger] call_ensures(pred, ((out.0 + 1) as i32,), r) && r != Ordering::Less,
        out.0 + 1 < out.1 ==> exists|r: Ordering|
            #[trigger] call_ensures(pred, ((out.1 - 1) as i32,), r) && r != Ordering::Greater,
{
    let mut i = lhs;
    let mut j = rhs;
    while i + 1 < j
        invariant
            -1 <= lhs <= i <= j <= rhs < 0x4000_0000,
            lhs < rhs ==> i < j,
            pred_callable(pred, lhs as int, rhs as int),
            pred_deterministic(pred),
            pred_sorted(pred, lhs as int, rhs as int),
            i == lhs || exists|r: Ordering|
                #[trigger] call_ensures(pred, (i,), r) && r == Ordering::Less,
            j == rhs || exists|r: Ordering|
                #[trigger] call_ensures(pred, (j,), r) && r != Ordering::Less,
        decreases j - i,
    {
        let mid = (i + j) / 2;
        let r = pred(mid);
        if matches!(r, Ordering::Less) {
            i = mid;
        } else {
            j = mid;
        }
    }
    let lhs_out = i;
    // Whatever stands just above the `Less` prefix does not answer `Less`.
    let ghost above_less: bool = (lhs_out + 1 >= rhs) || exists|r: Ordering|
        #[trigger] call_ensures(pred, ((lhs_out + 1) as i32,), r) && r != Ordering::Less;
    proof {
        assert(above_less);
    }
    j = rhs;
    while i + 1 < j
        invariant
            -1 <= lhs <= lhs_out <= i <= j <= rhs < 0x4000_0000,
            lhs < rhs ==> i < j,
            pred_callable(pred, lhs as int, rhs as int),
            pred_deterministic(pred),
            pred_sorted(pred, lhs as int, rhs as int),
            above_less,
            above_less == ((lhs_out + 1 >= rhs) || exists|r: Ordering|
                #[trigger] call_ensures(pred, ((lhs_out + 1) as i32,), r) && r != Ordering::Less),
            lhs_out == lhs || exists|r: Ordering|
                #[trigger] call_ensures(pred, (lhs_out,), r) && r == Ordering::Less,
            i == lhs_out || exists|r: Ordering|
                #[trigger] call_ensures(pred, (i,), r) && r != Ordering::Greater,
            j == rhs || exists|r: Ordering|
                #[trigger] call_ensures(pred, (j,), r) && r == Ordering::Greater,
        decreases j - i,
    {
        let mid = (i + j) / 2;
        let r = pred(mid);
        if matches!(r, Ordering::Greater) {
            j = mid;
        } else {
            i = mid;
        }
    }
    let rhs_out = j;
    proof {
        assert forall|k: i32, r: Ordering|
            lhs < k <= lhs_out && #[trigger] call_ensures(pred, (k,), r) implies r
            == Ordering::Less by {
            let rl = choose|rl: Ordering|
                #[trigger] call_ensures(pred, (lhs_out,), rl) && rl == Ordering::Less;
            assert(ord_le(r, rl));
        }
        assert forall|k: i32, r: Ordering|
            rhs_out <= k < rhs && #[trigger] call_ensures(pred, (k,), r) implies r
            == Ordering::Greater by {
            let rg = choose|rg: Ordering|
                #[trigger] call_ensures(pred, (rhs_out,), rg) && rg == Ordering::Greater;
            assert(ord_le(rg, r));
        }
        assert forall|k: i32, r: Ordering|
            lhs_out < k < rhs_out && #[trigger] call_ensures(pred, (k,), r) implies r
            == Ordering::Equal by {
            // Below: the probe just above `lhs_out` rules out `Less`.
            assert(lhs_out + 1 < rhs);
            let ra = choose|ra: Ordering|
                #[trigger] call_ensures(pred, ((lhs_out + 1) as i32,), ra) && ra != Ordering::Less;
            assert(ord_le(ra, r));
            // Above: the probe just below `rhs_out` rules out `Greater`.
            assert(i == rhs_out - 1);
            if i == lhs_out {
                assert(false);
            } else {
                let rb = choose|rb: Ordering|
                    #[trigger] call_ensures(pred, ((rhs_out - 1) as i32,), rb) && rb
                        != Ordering::Greater;
                assert(ord_le(r, rb));
            }
        }
    }
    (lhs_out, rhs_out)
}

/// Finds the last probe on which the comparator does not answer
/// `Greater` (or `lhs` when every probe answers `Greater`).
pub fn binary_narrow_to_upper_range_exclusive<F: Fn(i32) -> Ordering>(
    lhs: i32,
    rhs: i32,
    pred: F,
) -> (out: i32)
    requires
        -1 <= lhs <= rhs < 0x4000_0000,
        pred_callable(pred, lhs as int, rhs as int),
        pred_deterministic(pred),
        pred_sorted(pred, lhs as int, rhs as int),
    ensures
        lhs <= out <= rhs,
        lhs < rhs ==> out < rhs,
        forall|i: i32, r: Ordering|
            lhs < i <= out && #[trigger] call_ensures(pred, (i,), r) ==> r != Ordering::Greater,
        forall|i: i32, r: Ordering|
            out < i < rhs && #[trigger] call_ensures(pred, (i,), r) ==> r == Ordering::Greater,
        out == lhs || exists|r: Ordering|
            #[trigger] call_ensures(pred, (out,), r) && r != Ordering::Greater,
        out < rhs ==> (out + 1 == rhs || exists|r: Ordering|
            #[trigger] call_ensures(pred, ((out + 1) as i32,), r) && r == Ordering::Greater),
{
    let mut i = lhs;
    let mut j = rhs;
    while i + 1 < j
        invariant
            -1 <= lhs <= i <= j <= rhs < 0x4000_0000,
            lhs < rhs ==> i < j,
            pred_callable(pred, lhs as int, rhs as int),
            pred_deterministic(pred),
            pred_sorted(pred, lhs as int, rhs as int),
            i == lhs || exists|r: Ordering|
                #[trigger] call_ensures(pred, (i,), r) && r != Ordering::Greater,
            j == rhs || exists|r: Ordering|
                #[trigger] call_ensures(pred, (j,), r) && r == Ordering::Greater,
        decreases j - i,
    {
        let mid = (i + j) / 2;
        let r = pred(mid);
        if matches!(r, Ordering::Greater) {
            j = mid;
        } else {
            i = mid;
        }
    }
    proof {
        assert forall|k: i32, r: Ordering|
            lhs < k <= i && #[trigger] call_ensures(pred, (k,), r) implies r
            != Ordering::Greater by {
            let ri = choose|ri: Ordering|
                #[trigger] call_ensures(pred, (i,), ri) && ri != Ordering::Greater;
            assert(ord_le(r, ri));
        }
        assert forall|k: i32, r: Ordering|
            i < k < rhs && #[trigger] call_ensures(pred, (k,), r) implies r
            == Ordering::Greater by {
            assert(j == i + 1);
            let rj = choose|rj: Ordering|
                #[trigger] call_ensures(pred, (j,), rj) && rj == Ordering::Greater;
            assert(ord_le(rj, r));
        }
    }
    i
}

/// Finds the first probe on which the comparator does not answer
/// `Less` (or `rhs` when every probe answers `Less`).
pub fn binary_narrow_to_lower_range_exclusive<F: Fn(i32) -> Ordering>(
    lhs: i32,
    rhs: i32,
    pred: F,
) -> (out: i32)
    requires
        -1 <= lhs <= rhs < 0x4000_0000,
        pred_callable(pred, lhs as int, rhs as int),
        pred_deterministic(pred),
        pred_sorted(pred, lhs as int, rhs as int),
    ensures
        lhs <= out <= rhs,
        lhs < rhs ==> lhs < out,
        forall|i: i32, r: Ordering|
            lhs < i < out && #[trigger] call_ensures(pred, (i,), r) ==> r == Ordering::Less,
        forall|i: i32, r: Ordering|
            out <= i < rhs && #[trigger] call_ensures(pred, (i,), r) ==> r != Ordering::Less,
        out == rhs || exists|r: Ordering|
            #[trigger] call_ensures(pred, (out,), r) && r != Ordering::Less,
        lhs < out ==> (out - 1 == lhs || exists|r: Ordering|
            #[trigger] call_ensures(pred, ((out - 1) as i32,), r) && r == Ordering::Less),
{
    let mut i = lhs;
    let mut j = rhs;
    while i + 1 < j
        invariant
            -1 <= lhs <= i <= j <= rhs < 0x4000_0000,
            lhs < rhs ==> i < j,
            pred_callable(pred, lhs as int, rhs as int),
            pred_deterministic(pred),
            pred_sorted(pred, lhs as int, rhs as int),
            i == lhs || exists|r: Ordering|
                #[trigger] call_ensures(pred, (i,), r) && r == Ordering::Less,
            j == rhs || exists|r: Ordering|
                #[trigger] call_ensures(pred, (j,), r) && r != Ordering::Less,
        decreases j - i,
    {
        let mid = (i + j) / 2;
        let r = pred(mid);
        if matches!(r, Ordering::Less) {
            i = mid;
        } else {
            j = mid;
        }
    }
    proof {
        assert forall|k: i32, r: Ordering|
            lhs < k < j && #[trigger] call_ensures(pred, (k,), r) implies r == Ordering::Less by {
            assert(i == j - 1);
            let ri = choose|ri: Ordering|
                #[trigger] call_ensures(pred, (i,), ri) && ri == Ordering::Less;
            assert(ord_le(r, ri));
        }
        assert forall|k: i32, r: Ordering|
            j <= k < rhs && #[trigger] call_ensures(pred, (k,), r) implies r != Ordering::Less by {
            let rj = choose|rj: Ordering|
                #[trigger] call_ensures(pred, (j,), rj) && rj != Ordering::Less;
            assert(ord_le(rj, r));
        }
        if lhs < j {
            assert(i == j - 1);
            if i != lhs {
                let r = choose|r: Ordering|
                    #[trigger] call_ensures(pred, (i,), r) && r == Ordering::Less;
                assert(call_ensures(pred, (((j - 1) as i32),), r) && r == Ordering::Less);
            }
        }
    }
    j
}

/// Lexicographic order on byte sequences: is `x` at most `y`?
pub open spec fn spec_bytes_le(x: Seq<u8>, y: Seq<u8>) -> bool
    decreases x.len(),
{
    if x.len() == 0 {
        true
    } else if y.len() == 0 {
        false
    } else if x[0] < y[0] {
        true
    } else if x[0] > y[0] {
        false
    } else {
        spec_bytes_le(x.drop_first(), y.drop_first())
    }
}

proof fn lemma_bytes_le_skip(x: Seq<u8>, y: Seq<u8>, i: int)
    requires
        0 <= i <= x.len(),
        i <= y.len(),
        forall|k: int| 0 <= k < i ==> x[k] == y[k],
    ensures
        spec_bytes_le(x, y) == spec_bytes_le(x.skip(i), y.skip(i)),
    decreases i,
{
    if i > 0 {
        if x.len() > 0 && y.len() > 0 {
            assert(x[0] == y[0]);
            lemma_bytes_le_skip(x.drop_first(), y.drop_first(), i - 1);
            assert(x.drop_first().skip(i - 1) =~= x.skip(i));
            assert(y.drop_first().skip(i - 1) =~= y.skip(i));
        }
    } else {
        assert(x.skip(0) =~= x);
        assert(y.skip(0) =~= y);
    }
}

/// The lexicographic order is total: one direction always holds.
pub proof fn lemma_bytes_le_total(x: Seq<u8>, y: Seq<u8>)
    ensures
        spec_bytes_le(x, y) || spec_bytes_le(y, x),
    decreases x.len(),
{
    if x.len() > 0 && y.len() > 0 && x[0] == y[0] {
        lemma_bytes_le_total(x.drop_first(), y.drop_first());
    }
}

/// Lexicographic byte-order comparison of two strings.
pub fn str_le(a: &str, b: &str) -> (r: bool)
    ensures
        r == spec_bytes_le(a.spec_bytes(), b.spec_bytes()),
{
    let ab = a.as_bytes();
    let bb = b.as_bytes();
    let na = ab.len();
    let nb = bb.len();
    let mut i: usize = 0;
    loop
        invariant
            0 <= i <= na,
            i <= nb,
            na == ab@.len(),
            nb == bb@.len(),
            ab@ == a.spec_bytes(),
            bb@ == b.spec_bytes(),
            forall|k: int| 0 <= k < i ==> ab@[k] == bb@[k],
        decreases na - i,
    {
        proof {
            lemma_bytes_le_skip(ab@, bb@, i as int);
        }
        if i == na {
            proof {
                assert(ab@.skip(i as int).len() == 0);
            }
            return true;
        }
        if i == nb {
            proof {
                assert(bb@.skip(i as int).len() == 0);
                assert(ab@.skip(i as int).len() > 0);
            }
            return false;
        }
        let x = *vstd::slice::slice_index_get(ab, i);
        let y = *vstd::slice::slice_index_get(bb, i);
        if x < y {
            proof {
                assert(ab@.skip(i as int)[0] == x);
                assert(bb@.skip(i as int)[0] == y);
            }
            return true;
        }
        if x > y {
            proof {
                assert(ab@.skip(i as int)[0] == x);
                assert(bb@.skip(i as int)[0] == y);
            }
            return false;
        }
        i += 1;
    }
}

/// A subset of a table's rows: every row in order, or an explicit list
/// of row byte positions.
#[derive(Debug)]
pub enum Selection {
    All,
    List(Vec<usize>),
}

impl Selection {
    /// The row byte positions the selection stands for, over a table
    /// image of `table_byte_len` bytes with rows of `row_byte_len`.
    pub open spec fn spec_positions(self, row_byte_len: nat, table_byte_len: nat) -> Seq<usize>
        recommends
            row_byte_len > 0,
            table_byte_len % row_byte_len == 0,
    {
        match self {
            Selection::All => Seq::new(
                table_byte_len / row_byte_len,
                |k: int| (k * row_byte_len) as usize,
            ),
            Selection::List(ps) => ps@,
        }
    }
}

/// Every whole-row start position leaves room for one whole row.
pub proof fn lemma_all_positions_bounded(row: int, len: int)
    requires
        row >= 1,
        0 <= len,
        len % row == 0,
    ensures
        forall|k: int|
            0 <= k < len / row ==> #[trigger] (k * row) + row <= len && k * row >= 0,
{
    assert forall|k: int|
        0 <= k < len / row implies #[trigger] (k * row) + row <= len && k * row >= 0 by {
        vstd::arithmetic::div_mod::lemma_fundamental_div_mod(len, row);
        vstd::arithmetic::mul::lemma_mul_inequality(k + 1, len / row, row);
        vstd::arithmetic::mul::lemma_mul_is_commutative(k + 1, row);
        vstd::arithmetic::mul::lemma_mul_is_commutative(len / row, row);
        vstd::arithmetic::mul::lemma_mul_is_distributive_add(row, k, 1);
        vstd::arithmetic::mul::lemma_mul_basics(row);
        vstd::arithmetic::mul::lemma_mul_is_commutative(k, row);
        vstd::arithmetic::mul::lemma_mul_nonnegative(k, row);
    }
}

impl Selection {
    /// Every position the selection stands for leaves room for one
    /// whole row, provided its explicit positions do.
    pub proof fn lemma_positions_bounded(self, row: nat, len: nat)
        requires
            row >= 1,
            len % row == 0,
            (self matches Selection::List(v) ==> forall|k: int|
                0 <= k < v@.len() ==> (#[trigger] v@[k]) + row <= len),
        ensures
            forall|k: int|
                0 <= k < self.spec_positions(row, len).len() ==> (
                #[trigger] self.spec_positions(row, len)[k]) + row <= len,
    {
        match self {
            Selection::All => {
                lemma_all_positions_bounded(row as int, len as int);
                assert forall|k: int|
                    0 <= k < self.spec_positions(row, len).len() implies (
                #[trigger] self.spec_positions(row, len)[k]) + row <= len by {
                    assert((k * row as int) + row <= len);
                }
            },
            Selection::List(_) => {},
        }
    }
}

/// Steps through the positions of a `Selection` in order.
pub struct SelectionIterator<'a> {
    selection: &'a Selection,
    row_byte_len: usize,
    table_byte_len: usize,
    current_idx: usize,
}

impl<'a> SelectionIterator<'a> {
    pub closed spec fn wf(self) -> bool {
        &&& self.row_byte_len > 0
        &&& self.table_byte_len % self.row_byte_len == 0
        &&& self.table_byte_len + self.row_byte_len <= usize::MAX
        &&& match self.selection {
            Selection::All => self.current_idx % self.row_byte_len == 0 && self.current_idx
                <= self.table_byte_len + self.row_byte_len,
            Selection::List(ps) => self.current_idx <= ps@.len(),
        }
    }

    /// The positions this iterator walks.
    pub closed spec fn spec_positions(self) -> Seq<usize> {
        (*self.selection).spec_positions(
            self.row_byte_len as nat,
            self.table_byte_len as nat,
        )
    }

    /// How many positions have been handed out so far.
    pub closed spec fn spec_emitted(self) -> int {
        match self.selection {
            Selection::All => self.current_idx as int / self.row_byte_len as int,
            Selection::List(_) => self.current_idx as int,
        }
    }

    pub fn new(selection: &'a Selection, row_byte_len: usize, table_byte_len: usize) -> (it: Self)
        requires
            row_byte_len > 0,
            table_byte_len % row_byte_len == 0,
            table_byte_len + row_byte_len <= usize::MAX,
        ensures
            it.wf(),
            it.spec_emitted() == 0,
            it.spec_positions() == selection.spec_positions(
                row_byte_len as nat,
                table_byte_len as nat,
            ),
    {
        Self { selection, row_byte_len, table_byte_len, current_idx: 0 }
    }

    /// Hands out the next position, in order, until all are spent.
    pub fn next(&mut self) -> (r: Option<usize>)
        requires
            old(self).wf(),
        ensures
            final(self).wf(),
            final(self).spec_positions() == old(self).spec_positions(),
            ({
                let ps = old(self).spec_positions();
                let k = old(self).spec_emitted();
                if k < ps.len() {
                    r == Some(ps[k]) && final(self).spec_emitted() == k + 1
                } else {
                    r is None && final(self).spec_emitted() == k
                }
            }),
    {
        match self.selection {
            Selection::All => {
                if self.current_idx >= self.table_byte_len {
                    proof {
                        vstd::arithmetic::div_mod::lemma_div_is_ordered(
                            self.table_byte_len as int,
                            self.current_idx as int,
                            self.row_byte_len as int,
                        );
                    }
                    None
                } else {
                    let previous_idx = self.current_idx;
                    self.current_idx = self.current_idx + self.row_byte_len;
                    proof {
                        let row = self.row_byte_len as int;
                        let prev = previous_idx as int;
                        let tab = self.table_byte_len as int;
                        vstd::arithmetic::div_mod::lemma_fundamental_div_mod(prev, row);
                        vstd::arithmetic::div_mod::lemma_fundamental_div_mod(tab, row);
                        vstd::arithmetic::div_mod::lemma_div_plus_one(prev, row);
                        vstd::arithmetic::div_mod::lemma_mod_multiples_vanish(1, prev, row);
                        if prev / row >= tab / row {
                            assert(prev % row == 0);
                            assert(tab % row == 0);
                            assert(row * (prev / row) == prev);
                            assert(row * (tab / row) == tab);
                            vstd::arithmetic::mul::lemma_mul_inequality(
                                tab / row,
                                prev / row,
                                row,
                            );
                            assert((tab / row) * row <= (prev / row) * row);
                            vstd::arithmetic::mul::lemma_mul_is_commutative(tab / row, row);
                            vstd::arithmetic::mul::lemma_mul_is_commutative(prev / row, row);
                            assert(tab <= prev);
                            assert(false);
                        }
                    }
                    Some(previous_idx)
                }
            },
            Selection::List(positions) => {
                if self.current_idx >= positions.len() {
                    None
                } else {
                    self.current_idx = self.current_idx + 1;
                    Some(positions[self.current_idx - 1])
                }
            },
        }
    }
}

} // verus!
