use vstd::prelude::*;

use crate::enrich::{is_target_addr, records_view, targets_view, Record, RecordView, Target,
    TargetView};
use crate::text::str_eq;

verus! {

// ---------------------------------------------------------------------------
// Lexicographic order on names, used for the report's descending row order.
// ---------------------------------------------------------------------------

/// Strict lexicographic order on character sequences, by scalar value; a
/// proper prefix comes before its extensions.
pub open spec fn seq_lt(a: Seq<char>, b: Seq<char>) -> bool
    decreases a.len(),
{
    if b.len() == 0 {
        false
    } else if a.len() == 0 {
        true
    } else if (a[0] as u32) < (b[0] as u32) {
        true
    } else if (a[0] as u32) > (b[0] as u32) {
        false
    } else {
        seq_lt(a.drop_first(), b.drop_first())
    }
}

/// Executable counterpart of `seq_lt`.
pub fn str_lt(a: &str, b: &str) -> (r: bool)
    ensures
        r == seq_lt(a@, b@),
{
    let na = a.unicode_len();
    let nb = b.unicode_len();
    let mut i: usize = 0;
    proof {
        assert(a@.skip(0) =~= a@);
        assert(b@.skip(0) =~= b@);
    }
    while i < na && i < nb
        invariant
            i <= na,
            i <= nb,
            na == a@.len(),
            nb == b@.len(),
            seq_lt(a@, b@) == seq_lt(a@.skip(i as int), b@.skip(i as int)),
        decreases na - i,
    {
        proof {
            assert(a@.skip(i as int)[0] == a@[i as int]);
            assert(b@.skip(i as int)[0] == b@[i as int]);
            assert(a@.skip(i as int).drop_first() =~= a@.skip(i as int + 1));
            assert(b@.skip(i as int).drop_first() =~= b@.skip(i as int + 1));
        }
        let ca = a.get_char(i) as u32;
        let cb = b.get_char(i) as u32;
        if ca < cb {
            return true;
        }
        if ca > cb {
            return false;
        }
        i = i + 1;
    }
    proof {
        if i == nb {
            assert(b@.skip(i as int).len() == 0);
        } else {
            assert(a@.skip(i as int).len() == 0);
            assert(b@.skip(i as int).len() > 0);
        }
    }
    i < nb
}

/// Which name field a sheet block is ordered by.
#[derive(Clone, Copy)]
pub enum SortKey {
    FromName,
    ToName,
}

pub open spec fn key_of(r: RecordView, k: SortKey) -> Seq<char> {
    match k {
        SortKey::FromName => r.from_name,
        SortKey::ToName => r.to_name,
    }
}

fn key_str<'a>(r: &'a Record, k: SortKey) -> (s: &'a String)
    ensures
        s@ == key_of(r@, k),
{
    match k {
        SortKey::FromName => &r.from_name,
        SortKey::ToName => &r.to_name,
    }
}

/// Insert a record into a descending-ordered sequence: it goes in front of
/// the first record whose key is strictly below its own, so records with
/// equal keys keep their arrival order.
pub open spec fn insert_desc(k: SortKey, r: RecordView, s: Seq<RecordView>) -> Seq<RecordView>
    decreases s.len(),
{
    if s.len() == 0 {
        seq![r]
    } else if seq_lt(key_of(s[0], k), key_of(r, k)) {
        seq![r] + s
    } else {
        seq![s[0]] + insert_desc(k, r, s.drop_first())
    }
}

/// Stable insertion sort, descending by the chosen key.
pub open spec fn sort_desc_by(k: SortKey, s: Seq<RecordView>) -> Seq<RecordView>
    decreases s.len(),
{
    if s.len() == 0 {
        Seq::empty()
    } else {
        insert_desc(k, s[0], sort_desc_by(k, s.drop_first()))
    }
}

/// Where the scan of a descending sequence stops is where `insert_desc`
/// puts the new record.
proof fn lemma_insert_desc_at(k: SortKey, r: RecordView, s: Seq<RecordView>, p: int)
    requires
        0 <= p <= s.len(),
        forall|i: int| 0 <= i < p ==> !seq_lt(key_of(#[trigger] s[i], k), key_of(r, k)),
        p < s.len() ==> seq_lt(key_of(s[p], k), key_of(r, k)),
    ensures
        insert_desc(k, r, s) == s.take(p) + seq![r] + s.skip(p),
    decreases p,
{
    if p == 0 {
        if s.len() == 0 {
            assert(insert_desc(k, r, s) =~= s.take(0) + seq![r] + s.skip(0));
        } else {
            assert(seq![r] + s =~= s.take(0) + seq![r] + s.skip(0));
        }
    } else {
        assert(!seq_lt(key_of(s[0], k), key_of(r, k)));
        lemma_insert_desc_at(k, r, s.drop_first(), p - 1);
        assert(seq![s[0]] + (s.drop_first().take(p - 1) + seq![r] + s.drop_first().skip(p - 1))
            =~= s.take(p) + seq![r] + s.skip(p));
    }
}

/// Insert a record into its place in a descending-ordered vector.
fn insert_sorted(out: &mut Vec<Record>, k: SortKey, r: Record)
    ensures
        records_view(final(out)@) == insert_desc(k, r@, records_view(old(out)@)),
{
    let ghost s = records_view(out@);
    let n = out.len();
    let mut p: usize = 0;
    let mut found = false;
    while !found && p < n
        invariant
            p <= n,
            n == out@.len(),
            s == records_view(out@),
            forall|i: int| 0 <= i < p ==> !seq_lt(key_of(#[trigger] s[i], k), key_of(r@, k)),
            found ==> p < n && seq_lt(key_of(s[p as int], k), key_of(r@, k)),
        decreases (if found { 0int } else { 1int }), n - p,
    {
        proof {
            assert(s[p as int] == out@[p as int]@);
        }
        if str_lt(key_str(&out[p], k).as_str(), key_str(&r, k).as_str()) {
            found = true;
        } else {
            p = p + 1;
        }
    }
    proof {
        if !found {
            assert(p == n);
        }
        lemma_insert_desc_at(k, r@, s, p as int);
    }
    let ghost rv = r@;
    out.insert(p, r);
    proof {
        assert(out@ == old(out)@.insert(p as int, out@[p as int]));
        assert(out@[p as int]@ == rv);
        assert(records_view(out@) =~= s.take(p as int) + seq![rv] + s.skip(p as int));
    }
}

/// Sort records descending by the chosen name field; records with equal
/// keys keep their arrival order.
pub fn sort_records_desc(records: Vec<Record>, k: SortKey) -> (r: Vec<Record>)
    ensures
        records_view(r@) == sort_desc_by(k, records_view(records@)),
        r@.len() == records@.len(),
{
    let ghost s = records_view(records@);
    let mut out: Vec<Record> = Vec::new();
    let mut rest = records;
    proof {
        assert(records_view(out@) =~= Seq::<RecordView>::empty());
        assert(s.skip(s.len() as int) =~= Seq::<RecordView>::empty());
        assert(records_view(rest@) =~= s.take(rest@.len() as int));
    }
    while rest.len() > 0
        invariant
            rest@.len() <= s.len(),
            records_view(rest@) == s.take(rest@.len() as int),
            records_view(out@) == sort_desc_by(k, s.skip(rest@.len() as int)),
            out@.len() + rest@.len() == s.len(),
        decreases rest@.len(),
    {
        let ghost m = rest@.len() as int;
        let ghost rpre = rest@;
        let e = rest.pop().unwrap();
        proof {
            assert(e == rpre[m - 1]);
            assert(records_view(rpre)[m - 1] == rpre[m - 1]@);
            assert(e@ == s[m - 1]);
            assert(records_view(rest@) =~= s.take(m - 1)) by {
                assert(forall|j: int|
                    0 <= j < m - 1 ==> #[trigger] records_view(rest@)[j] == records_view(rpre)[j]);
            }
            assert(s.skip(m - 1)[0] == s[m - 1]);
            assert(s.skip(m - 1).drop_first() =~= s.skip(m));
        }
        insert_sorted(&mut out, k, e);
        proof {
            lemma_insert_desc_len(k, s[m - 1], sort_desc_by(k, s.skip(m)));
        }
    }
    proof {
        assert(s.skip(0) =~= s);
    }
    out
}

/// No key is strictly below itself.
proof fn lemma_seq_lt_irrefl(a: Seq<char>)
    ensures
        !seq_lt(a, a),
    decreases a.len(),
{
    if a.len() > 0 {
        lemma_seq_lt_irrefl(a.drop_first());
    }
}

/// Strict lexicographic order is transitive.
proof fn lemma_seq_lt_trans(a: Seq<char>, b: Seq<char>, c: Seq<char>)
    requires
        seq_lt(a, b),
        seq_lt(b, c),
    ensures
        seq_lt(a, c),
    decreases a.len(),
{
    if b.len() > 0 && a.len() > 0 {
        if (a[0] as u32) == (b[0] as u32) && (b[0] as u32) == (c[0] as u32) {
            lemma_seq_lt_trans(a.drop_first(), b.drop_first(), c.drop_first());
        }
    }
}

/// Every element of an insertion is the inserted record or one of the
/// sequence's own.
proof fn lemma_insert_desc_elem(k: SortKey, r: RecordView, s: Seq<RecordView>, j: int)
    requires
        0 <= j < insert_desc(k, r, s).len(),
    ensures
        insert_desc(k, r, s)[j] == r || exists|i: int|
            0 <= i < s.len() && #[trigger] s[i] == insert_desc(k, r, s)[j],
    decreases s.len(),
{
    lemma_insert_desc_len(k, r, s);
    if s.len() == 0 {
    } else if seq_lt(key_of(s[0], k), key_of(r, k)) {
        if j > 0 {
            assert(s[j - 1] == insert_desc(k, r, s)[j]);
        }
    } else {
        if j > 0 {
            lemma_insert_desc_elem(k, r, s.drop_first(), j - 1);
            if insert_desc(k, r, s.drop_first())[j - 1] != r {
                let i = choose|i: int|
                    0 <= i < s.drop_first().len() && #[trigger] s.drop_first()[i] == insert_desc(
                        k,
                        r,
                        s.drop_first(),
                    )[j - 1];
                assert(s[i + 1] == insert_desc(k, r, s)[j]);
            }
        }
    }
}

/// Descending order by the chosen key.
pub open spec fn sorted_desc_by(k: SortKey, s: Seq<RecordView>) -> bool {
    forall|i: int, j: int|
        0 <= i < j < s.len() ==> !seq_lt(key_of(#[trigger] s[i], k), key_of(#[trigger] s[j], k))
}

/// Inserting into a descending sequence keeps it descending.
proof fn lemma_insert_desc_sorted(k: SortKey, r: RecordView, s: Seq<RecordView>)
    requires
        sorted_desc_by(k, s),
    ensures
        sorted_desc_by(k, insert_desc(k, r, s)),
    decreases s.len(),
{
    lemma_insert_desc_len(k, r, s);
    let t = insert_desc(k, r, s);
    if s.len() == 0 {
    } else if seq_lt(key_of(s[0], k), key_of(r, k)) {
        assert forall|i: int, j: int| 0 <= i < j < t.len() implies !seq_lt(
            key_of(#[trigger] t[i], k),
            key_of(#[trigger] t[j], k),
        ) by {
            if i == 0 {
                assert(t[0] == r);
                assert(t[j] == s[j - 1]);
                if seq_lt(key_of(r, k), key_of(s[j - 1], k)) {
                    if j == 1 {
                        lemma_seq_lt_trans(key_of(s[0], k), key_of(r, k), key_of(s[0], k));
                        lemma_seq_lt_irrefl(key_of(s[0], k));
                    } else {
                        lemma_seq_lt_trans(key_of(s[0], k), key_of(r, k), key_of(s[j - 1], k));
                    }
                }
            } else {
                assert(t[i] == s[i - 1] && t[j] == s[j - 1]);
            }
        }
    } else {
        assert(sorted_desc_by(k, s.drop_first())) by {
            assert(forall|i: int, j: int|
                0 <= i < j < s.drop_first().len() ==> s.drop_first()[i] == s[i + 1]
                    && s.drop_first()[j] == s[j + 1]);
        }
        lemma_insert_desc_sorted(k, r, s.drop_first());
        let u = insert_desc(k, r, s.drop_first());
        assert forall|i: int, j: int| 0 <= i < j < t.len() implies !seq_lt(
            key_of(#[trigger] t[i], k),
            key_of(#[trigger] t[j], k),
        ) by {
            if i == 0 {
                assert(t[0] == s[0]);
                assert(t[j] == u[j - 1]);
                lemma_insert_desc_elem(k, r, s.drop_first(), j - 1);
                if u[j - 1] == r {
                    assert(!seq_lt(key_of(s[0], k), key_of(r, k)));
                } else {
                    let w = choose|w: int|
                        0 <= w < s.drop_first().len() && #[trigger] s.drop_first()[w] == u[j - 1];
                    assert(s[w + 1] == u[j - 1]);
                    assert(!seq_lt(key_of(s[0], k), key_of(s[w + 1], k)));
                }
            } else {
                assert(t[i] == u[i - 1] && t[j] == u[j - 1]);
            }
        }
    }
}

/// Inserting adds exactly the inserted record to the sequence's multiset.
proof fn lemma_insert_desc_multiset(k: SortKey, r: RecordView, s: Seq<RecordView>)
    ensures
        insert_desc(k, r, s).to_multiset() == s.to_multiset().insert(r),
    decreases s.len(),
{
    broadcast use vstd::seq_lib::group_to_multiset_ensures;

    let t = insert_desc(k, r, s);
    if s.len() == 0 {
        assert(t =~= Seq::<RecordView>::empty().push(r));
    } else if seq_lt(key_of(s[0], k), key_of(r, k)) {
        assert(t =~= s.insert(0, r));
        vstd::seq_lib::to_multiset_insert(s, 0, r);
    } else {
        lemma_insert_desc_multiset(k, r, s.drop_first());
        let u = insert_desc(k, r, s.drop_first());
        assert(t =~= u.insert(0, s[0]));
        vstd::seq_lib::to_multiset_insert(u, 0, s[0]);
        assert(s =~= s.drop_first().insert(0, s[0]));
        vstd::seq_lib::to_multiset_insert(s.drop_first(), 0, s[0]);
        // both sides insert r and the head into the tail's multiset
        assert(t.to_multiset() =~= s.to_multiset().insert(r));
    }
}

/// Law, ordering: sorting by a key yields a sequence that is descending in
/// that key and is a permutation of its input.
pub proof fn lemma_sort_desc_by_correct(k: SortKey, s: Seq<RecordView>)
    ensures
        sorted_desc_by(k, sort_desc_by(k, s)),
        sort_desc_by(k, s).to_multiset() == s.to_multiset(),
    decreases s.len(),
{
    broadcast use vstd::seq_lib::group_to_multiset_ensures;

    if s.len() > 0 {
        lemma_sort_desc_by_correct(k, s.drop_first());
        lemma_insert_desc_sorted(k, s[0], sort_desc_by(k, s.drop_first()));
        lemma_insert_desc_multiset(k, s[0], sort_desc_by(k, s.drop_first()));
        assert(s =~= s.drop_first().insert(0, s[0]));
        vstd::seq_lib::to_multiset_insert(s.drop_first(), 0, s[0]);
    }
}

/// Inserting one record grows a sequence by one.
proof fn lemma_insert_desc_len(k: SortKey, r: RecordView, s: Seq<RecordView>)
    ensures
        insert_desc(k, r, s).len() == s.len() + 1,
    decreases s.len(),
{
    if s.len() > 0 && !seq_lt(key_of(s[0], k), key_of(r, k)) {
        lemma_insert_desc_len(k, r, s.drop_first());
    }
}

// ---------------------------------------------------------------------------
// Partitioning a run's records by their relation to one target.
// ---------------------------------------------------------------------------

/// The records whose receiver is the given address, in arrival order.
pub open spec fn inbound_of(rs: Seq<RecordView>, addr: Seq<char>) -> Seq<RecordView>
    decreases rs.len(),
{
    if rs.len() == 0 {
        Seq::empty()
    } else {
        let rest = inbound_of(rs.drop_first(), addr);
        if rs[0].to == addr {
            seq![rs[0]] + rest
        } else {
            rest
        }
    }
}

/// The records whose sender is the given address, in arrival order.
pub open spec fn outbound_of(rs: Seq<RecordView>, addr: Seq<char>) -> Seq<RecordView>
    decreases rs.len(),
{
    if rs.len() == 0 {
        Seq::empty()
    } else {
        let rest = outbound_of(rs.drop_first(), addr);
        if rs[0].from == addr {
            seq![rs[0]] + rest
        } else {
            rest
        }
    }
}

/// Split a run's records into those inbound to and those outbound from one
/// target; a record matching both sides appears in both parts.
pub fn partition_records(data: &Vec<Record>, target: &Target) -> (r: (Vec<Record>, Vec<Record>))
    ensures
        records_view(r.0@) == inbound_of(records_view(data@), target@.address),
        records_view(r.1@) == outbound_of(records_view(data@), target@.address),
        r.0@.len() <= data@.len(),
        r.1@.len() <= data@.len(),
{
    let ghost rs = records_view(data@);
    let ghost addr = target@.address;
    let mut inb: Vec<Record> = Vec::new();
    let mut outb: Vec<Record> = Vec::new();
    let n = data.len();
    let mut i: usize = 0;
    proof {
        assert(records_view(inb@) =~= Seq::<RecordView>::empty());
        assert(records_view(outb@) =~= Seq::<RecordView>::empty());
        assert(rs.skip(0) =~= rs);
        assert(Seq::<RecordView>::empty() + inbound_of(rs, addr) =~= inbound_of(rs, addr));
        assert(Seq::<RecordView>::empty() + outbound_of(rs, addr) =~= outbound_of(rs, addr));
    }
    while i < n
        invariant
            i <= n,
            n == data@.len(),
            rs == records_view(data@),
            addr == target@.address,
            inb@.len() <= i,
            outb@.len() <= i,
            records_view(inb@) + inbound_of(rs.skip(i as int), addr) == inbound_of(rs, addr),
            records_view(outb@) + outbound_of(rs.skip(i as int), addr) == outbound_of(rs, addr),
        decreases n - i,
    {
        proof {
            assert(rs.skip(i as int)[0] == rs[i as int]);
            assert(rs.skip(i as int).drop_first() =~= rs.skip(i as int + 1));
            assert(rs[i as int] == data@[i as int]@);
        }
        if str_eq(data[i].to.as_str(), target.address.as_str()) {
            let ghost in0 = records_view(inb@);
            inb.push(clone_record(&data[i]));
            proof {
                assert(records_view(inb@) =~= in0.push(rs[i as int]));
                assert(in0.push(rs[i as int]) + inbound_of(rs.skip(i as int + 1), addr) =~= in0 + (
                seq![rs[i as int]] + inbound_of(rs.skip(i as int + 1), addr)));
            }
        }
        if str_eq(data[i].from.as_str(), target.address.as_str()) {
            let ghost out0 = records_view(outb@);
            outb.push(clone_record(&data[i]));
            proof {
                assert(records_view(outb@) =~= out0.push(rs[i as int]));
                assert(out0.push(rs[i as int]) + outbound_of(rs.skip(i as int + 1), addr) =~= out0
                    + (seq![rs[i as int]] + outbound_of(rs.skip(i as int + 1), addr)));
            }
        }
        i = i + 1;
    }
    proof {
        assert(rs.skip(n as int) =~= Seq::<RecordView>::empty());
        assert(records_view(inb@) + Seq::<RecordView>::empty() =~= records_view(inb@));
        assert(records_view(outb@) + Seq::<RecordView>::empty() =~= records_view(outb@));
    }
    (inb, outb)
}

fn clone_record(r: &Record) -> (c: Record)
    ensures
        c@ == r@,
{
    Record {
        call_type: r.call_type.clone(),
        signature: r.signature.clone(),
        from: r.from.clone(),
        to: r.to.clone(),
        from_name: r.from_name.clone(),
        to_name: r.to_name.clone(),
    }
}

// ---------------------------------------------------------------------------
// The sheet layout: one cell grid per target.
// ---------------------------------------------------------------------------

/// How one cell is drawn. Every cell uses the report's fixed monospace
/// typeface; these styles add bolding or a background highlight.
#[derive(Clone, Copy, PartialEq, Eq, Structural, Debug)]
pub enum CellStyle {
    /// Plain monospace.
    Plain,
    /// Bold, for header cells.
    Header,
    /// The primary-target highlight, on the side that matches the sheet's
    /// own target.
    Primary,
    /// The cross-target highlight, on a counterparty that is another
    /// registered target.
    CrossTarget,
}

/// One cell of a report sheet.
pub struct Cell {
    pub row: u32,
    pub col: u16,
    pub text: String,
    pub style: CellStyle,
}

/// The mathematical shadow of a `Cell`.
pub struct CellView {
    pub row: int,
    pub col: int,
    pub text: Seq<char>,
    pub style: CellStyle,
}

impl View for Cell {
    type V = CellView;

    open spec fn view(&self) -> CellView {
        CellView { row: self.row as int, col: self.col as int, text: self.text@, style: self.style }
    }
}

pub open spec fn cells_view(s: Seq<Cell>) -> Seq<CellView> {
    s.map_values(|c: Cell| c@)
}

/// The style of a row's "to" and "to name" cells: the primary highlight
/// when the receiver is the sheet's target, the cross-target highlight when
/// it is another registered target.
pub open spec fn to_side_style(r: RecordView, target: TargetView, targets: Seq<TargetView>) -> CellStyle {
    if r.to == target.address {
        CellStyle::Primary
    } else if is_target_addr(targets, r.to) {
        CellStyle::CrossTarget
    } else {
        CellStyle::Plain
    }
}

/// The style of a row's "from" and "from name" cells: the primary highlight
/// when the receiver side does not match the target (exactly one side is
/// primary per row), the cross-target highlight when the sender is another
/// registered target.
pub open spec fn from_side_style(r: RecordView, target: TargetView, targets: Seq<TargetView>) -> CellStyle {
    if r.to != target.address {
        CellStyle::Primary
    } else if is_target_addr(targets, r.from) && r.from != target.address {
        CellStyle::CrossTarget
    } else {
        CellStyle::Plain
    }
}

fn to_style(r: &Record, target: &Target, targets: &Vec<Target>) -> (s: CellStyle)
    ensures
        s == to_side_style(r@, target@, targets_view(targets@)),
{
    if str_eq(r.to.as_str(), target.address.as_str()) {
        CellStyle::Primary
    } else if crate::enrich::targets_contain(targets, r.to.as_str()) {
        CellStyle::CrossTarget
    } else {
        CellStyle::Plain
    }
}

fn from_style(r: &Record, target: &Target, targets: &Vec<Target>) -> (s: CellStyle)
    ensures
        s == from_side_style(r@, target@, targets_view(targets@)),
{
    if !str_eq(r.to.as_str(), target.address.as_str()) {
        CellStyle::Primary
    } else if crate::enrich::targets_contain(targets, r.from.as_str()) && !str_eq(
        r.from.as_str(),
        target.address.as_str(),
    ) {
        CellStyle::CrossTarget
    } else {
        CellStyle::Plain
    }
}

/// The six cells of one data row.
pub open spec fn record_cells(
    row: int,
    r: RecordView,
    target: TargetView,
    targets: Seq<TargetView>,
) -> Seq<CellView> {
    seq![
        CellView { row, col: 0, text: r.call_type, style: CellStyle::Plain },
        CellView { row, col: 1, text: r.signature, style: CellStyle::Plain },
        CellView { row, col: 2, text: r.from, style: from_side_style(r, target, targets) },
        CellView { row, col: 3, text: r.to, style: to_side_style(r, target, targets) },
        CellView { row, col: 4, text: r.from_name, style: from_side_style(r, target, targets) },
        CellView { row, col: 5, text: r.to_name, style: to_side_style(r, target, targets) },
    ]
}

pub open spec fn rows_cells(
    start: int,
    rows: Seq<RecordView>,
    target: TargetView,
    targets: Seq<TargetView>,
) -> Seq<CellView>
    decreases rows.len(),
{
    if rows.len() == 0 {
        Seq::empty()
    } else {
        record_cells(start, rows[0], target, targets) + rows_cells(
            start + 1,
            rows.drop_first(),
            target,
            targets,
        )
    }
}

proof fn lemma_rows_cells_snoc(
    start: int,
    rows: Seq<RecordView>,
    x: RecordView,
    target: TargetView,
    targets: Seq<TargetView>,
)
    ensures
        rows_cells(start, rows.push(x), target, targets) == rows_cells(start, rows, target, targets)
            + record_cells(start + rows.len(), x, target, targets),
    decreases rows.len(),
{
    if rows.len() == 0 {
        assert(rows.push(x)[0] == x);
        assert(rows.push(x).drop_first() =~= Seq::<RecordView>::empty());
        assert(rows_cells(start + 1, rows.push(x).drop_first(), target, targets) == Seq::<
            CellView,
        >::empty());
        assert(rows_cells(start, rows.push(x), target, targets) == record_cells(
            start,
            x,
            target,
            targets,
        ) + Seq::<CellView>::empty());
        assert(record_cells(start, x, target, targets) + Seq::<CellView>::empty()
            =~= Seq::<CellView>::empty() + record_cells(start, x, target, targets));
    } else {
        assert(rows.push(x)[0] == rows[0]);
        assert(rows.push(x).drop_first() =~= rows.drop_first().push(x));
        lemma_rows_cells_snoc(start + 1, rows.drop_first(), x, target, targets);
        let rc0 = record_cells(start, rows[0], target, targets);
        let mid = rows_cells(start + 1, rows.drop_first(), target, targets);
        let rx = record_cells(start + rows.len(), x, target, targets);
        assert(rows_cells(start, rows.push(x), target, targets) == rc0 + (mid + rx)) by {
            assert(start + 1 + rows.drop_first().len() == start + rows.len());
        }
        assert(rc0 + (mid + rx) =~= (rc0 + mid) + rx);
        assert(rows_cells(start, rows, target, targets) == rc0 + mid);
    }
}

/// The fixed header block of a sheet: the target banner, a blank row, and
/// the table header on the fourth row.
pub open spec fn header_cells(target: TargetView) -> Seq<CellView> {
    seq![
        CellView { row: 0, col: 0, text: "Target Address"@, style: CellStyle::Header },
        CellView { row: 0, col: 1, text: "Target Label"@, style: CellStyle::Header },
        CellView { row: 1, col: 0, text: target.address, style: CellStyle::Plain },
        CellView { row: 1, col: 1, text: target.label, style: CellStyle::Plain },
        CellView { row: 3, col: 0, text: "Call Type"@, style: CellStyle::Header },
        CellView { row: 3, col: 1, text: "Signature"@, style: CellStyle::Header },
        CellView { row: 3, col: 2, text: "From"@, style: CellStyle::Header },
        CellView { row: 3, col: 3, text: "To"@, style: CellStyle::Header },
        CellView { row: 3, col: 4, text: "From Name"@, style: CellStyle::Header },
        CellView { row: 3, col: 5, text: "To Name"@, style: CellStyle::Header },
    ]
}

/// The data rows of a target's sheet: records inbound to the target sorted
/// descending by sender name, then records outbound from it sorted
/// descending by receiver name.
pub open spec fn sheet_rows(target: TargetView, data: Seq<RecordView>) -> Seq<RecordView> {
    sort_desc_by(SortKey::FromName, inbound_of(data, target.address)) + sort_desc_by(
        SortKey::ToName,
        outbound_of(data, target.address),
    )
}

/// The whole cell grid of a target's sheet: the header block, then the data
/// rows starting on the fifth row.
pub open spec fn sheet_cells(
    target: TargetView,
    targets: Seq<TargetView>,
    data: Seq<RecordView>,
) -> Seq<CellView> {
    header_cells(target) + rows_cells(4, sheet_rows(target, data), target, targets)
}

/// Build the cell grid of one target's sheet. The grid is pinned exactly:
/// partitioning, both descending sort orders, every text and every
/// highlight follow `sheet_cells`.
pub fn build_sheet_for_target(target: &Target, targets: &Vec<Target>, data: &Vec<Record>) -> (r:
    Vec<Cell>)
    requires
        data@.len() < 0x3FFF_0000,
    ensures
        cells_view(r@) == sheet_cells(target@, targets_view(targets@), records_view(data@)),
{
    let ghost tv = target@;
    let ghost tsv = targets_view(targets@);
    let (inb, outb) = partition_records(data, target);
    let mut rows = sort_records_desc(inb, SortKey::FromName);
    let mut tail = sort_records_desc(outb, SortKey::ToName);
    rows.append(&mut tail);
    let ghost rowviews = sheet_rows(tv, records_view(data@));
    proof {
        assert(records_view(rows@) =~= rowviews);
    }
    let mut cells: Vec<Cell> = Vec::new();
    cells.push(Cell { row: 0, col: 0, text: header_text(0), style: CellStyle::Header });
    cells.push(Cell { row: 0, col: 1, text: header_text(1), style: CellStyle::Header });
    cells.push(Cell { row: 1, col: 0, text: target.address.clone(), style: CellStyle::Plain });
    cells.push(Cell { row: 1, col: 1, text: target.label.clone(), style: CellStyle::Plain });
    cells.push(Cell { row: 3, col: 0, text: header_text(2), style: CellStyle::Header });
    cells.push(Cell { row: 3, col: 1, text: header_text(3), style: CellStyle::Header });
    cells.push(Cell { row: 3, col: 2, text: header_text(4), style: CellStyle::Header });
    cells.push(Cell { row: 3, col: 3, text: header_text(5), style: CellStyle::Header });
    cells.push(Cell { row: 3, col: 4, text: header_text(6), style: CellStyle::Header });
    cells.push(Cell { row: 3, col: 5, text: header_text(7), style: CellStyle::Header });
    proof {
        assert(cells_view(cells@) =~= header_cells(tv));
        assert(rowviews.take(0) =~= Seq::<RecordView>::empty());
        assert(cells_view(cells@) =~= header_cells(tv) + rows_cells(
            4,
            rowviews.take(0),
            tv,
            tsv,
        ));
    }
    let n = rows.len();
    let mut i: usize = 0;
    while i < n
        invariant
            i <= n,
            n == rows@.len(),
            n < 0x7FFF_0000,
            rowviews == records_view(rows@),
            tv == target@,
            tsv == targets_view(targets@),
            cells_view(cells@) == header_cells(tv) + rows_cells(4, rowviews.take(i as int), tv, tsv),
        decreases n - i,
    {
        proof {
            assert(rowviews[i as int] == rows@[i as int]@);
        }
        let row: u32 = 4 + (i as u32);
        let fs = from_style(&rows[i], target, targets);
        let ts = to_style(&rows[i], target, targets);
        let ghost c0 = cells_view(cells@);
        cells.push(Cell { row, col: 0, text: rows[i].call_type.clone(), style: CellStyle::Plain });
        cells.push(Cell { row, col: 1, text: rows[i].signature.clone(), style: CellStyle::Plain });
        cells.push(Cell { row, col: 2, text: rows[i].from.clone(), style: fs });
        cells.push(Cell { row, col: 3, text: rows[i].to.clone(), style: ts });
        cells.push(Cell { row, col: 4, text: rows[i].from_name.clone(), style: fs });
        cells.push(Cell { row, col: 5, text: rows[i].to_name.clone(), style: ts });
        proof {
            assert(cells_view(cells@) =~= c0 + record_cells(4 + i as int, rowviews[i as int], tv, tsv));
            lemma_rows_cells_snoc(4, rowviews.take(i as int), rowviews[i as int], tv, tsv);
            assert(rowviews.take(i as int).push(rowviews[i as int]) =~= rowviews.take(i as int + 1));
            assert(cells_view(cells@) =~= header_cells(tv) + rows_cells(
                4,
                rowviews.take(i as int + 1),
                tv,
                tsv,
            ));
        }
        i = i + 1;
    }
    proof {
        assert(rowviews.take(n as int) =~= rowviews);
    }
    cells
}

/// The fixed header captions, by position.
fn header_text(which: usize) -> (s: String)
    requires
        which < 8,
    ensures
        s@ == (if which == 0 {
            "Target Address"@
        } else if which == 1 {
            "Target Label"@
        } else if which == 2 {
            "Call Type"@
        } else if which == 3 {
            "Signature"@
        } else if which == 4 {
            "From"@
        } else if which == 5 {
            "To"@
        } else if which == 6 {
            "From Name"@
        } else {
            "To Name"@
        }),
{
    if which == 0 {
        let t: &str = "Target Address";
        t.to_owned()
    } else if which == 1 {
        let t: &str = "Target Label";
        t.to_owned()
    } else if which == 2 {
        let t: &str = "Call Type";
        t.to_owned()
    } else if which == 3 {
        let t: &str = "Signature";
        t.to_owned()
    } else if which == 4 {
        let t: &str = "From";
        t.to_owned()
    } else if which == 5 {
        let t: &str = "To";
        t.to_owned()
    } else if which == 6 {
        let t: &str = "From Name";
        t.to_owned()
    } else {
        let t: &str = "To Name";
        t.to_owned()
    }
}

} // verus!
