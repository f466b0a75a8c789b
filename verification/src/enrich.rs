use vstd::prelude::*;

use crate::text::{
    find_char_from, find_from, lemma_find_from_props, lower_seq, lower_str, parse_log,
    parse_log_entries, str_eq,
};
use crate::trace::{CallView, FlatCall, TraceNode};

verus! {

/// One watched contract: its lowercase hex address and its display label.
pub struct Target {
    pub address: String,
    pub label: String,
}

/// The mathematical shadow of a `Target`.
pub struct TargetView {
    pub address: Seq<char>,
    pub label: Seq<char>,
}

impl View for Target {
    type V = TargetView;

    open spec fn view(&self) -> TargetView {
        TargetView { address: self.address@, label: self.label@ }
    }
}

pub open spec fn targets_view(s: Seq<Target>) -> Seq<TargetView> {
    s.map_values(|t: Target| t@)
}

/// One fully enriched call, ready for tabular output.
pub struct Record {
    pub call_type: String,
    pub signature: String,
    pub from: String,
    pub to: String,
    pub from_name: String,
    pub to_name: String,
}

/// The mathematical shadow of a `Record`.
pub struct RecordView {
    pub call_type: Seq<char>,
    pub signature: Seq<char>,
    pub from: Seq<char>,
    pub to: Seq<char>,
    pub from_name: Seq<char>,
    pub to_name: Seq<char>,
}

impl View for Record {
    type V = RecordView;

    open spec fn view(&self) -> RecordView {
        RecordView {
            call_type: self.call_type@,
            signature: self.signature@,
            from: self.from@,
            to: self.to@,
            from_name: self.from_name@,
            to_name: self.to_name@,
        }
    }
}

pub open spec fn records_view(s: Seq<Record>) -> Seq<RecordView> {
    s.map_values(|r: Record| r@)
}

#[derive(Debug)]
pub enum InputError {
    /// A registry line has no comma, or a data line has fewer than six
    /// tab-separated fields.
    MalformedLine,
}

// ---------------------------------------------------------------------------
// Target registry: comma-separated `address,label` lines, address lowercased.
// ---------------------------------------------------------------------------

/// The registry parsed from the text of a targets file: one target per
/// line, address before the first comma and lowercased, label up to the
/// second comma or the line's end. `None` when some line has no comma.
pub open spec fn parse_targets_spec(s: Seq<char>) -> Option<Seq<TargetView>> {
    match parse_log(s, ',') {
        Some(kvs) => Some(
            kvs.map_values(|p: (Seq<char>, Seq<char>)| TargetView {
                address: lower_seq(p.0),
                label: p.1,
            }),
        ),
        None => None,
    }
}

/// Load the target registry from the text of its file.
pub fn parse_targets(contents: &str) -> (r: Result<Vec<Target>, InputError>)
    ensures
        match r {
            Ok(ts) => parse_targets_spec(contents@) == Some(targets_view(ts@)),
            Err(_) => parse_targets_spec(contents@) is None,
        },
{
    match parse_log_entries(contents, ',') {
        None => Err(InputError::MalformedLine),
        Some(pairs) => {
            let mut ts: Vec<Target> = Vec::new();
            let n = pairs.len();
            let mut i: usize = 0;
            let ghost kvs = pairs@.map_values(|p: (String, String)| (p.0@, p.1@));
            while i < n
                invariant
                    i <= n,
                    n == pairs@.len(),
                    kvs == pairs@.map_values(|p: (String, String)| (p.0@, p.1@)),
                    ts@.len() == i,
                    forall|j: int|
                        0 <= j < i ==> (#[trigger] ts@[j])@.address == lower_seq(kvs[j].0)
                            && ts@[j]@.label == kvs[j].1,
                decreases n - i,
            {
                proof {
                    assert(kvs[i as int] == (pairs@[i as int].0@, pairs@[i as int].1@));
                }
                let address = lower_str(pairs[i].0.as_str());
                let label = pairs[i].1.clone();
                ts.push(Target { address, label });
                i = i + 1;
            }
            proof {
                assert(targets_view(ts@) =~= kvs.map_values(
                    |p: (Seq<char>, Seq<char>)| TargetView {
                        address: lower_seq(p.0),
                        label: p.1,
                    },
                )) by {
                    assert(forall|j: int|
                        0 <= j < n ==> (#[trigger] targets_view(ts@)[j]) == (TargetView {
                            address: lower_seq(kvs[j].0),
                            label: kvs[j].1,
                        }));
                }
            }
            Ok(ts)
        },
    }
}

/// Whether an address is one of the registry's target addresses.
pub open spec fn is_target_addr(targets: Seq<TargetView>, addr: Seq<char>) -> bool {
    exists|i: int| 0 <= i < targets.len() && (#[trigger] targets[i]).address == addr
}

pub fn targets_contain(targets: &Vec<Target>, addr: &str) -> (r: bool)
    ensures
        r == is_target_addr(targets_view(targets@), addr@),
{
    let n = targets.len();
    let mut i: usize = 0;
    while i < n
        invariant
            i <= n,
            n == targets@.len(),
            forall|k: int| 0 <= k < i ==> (#[trigger] targets@[k])@.address != addr@,
        decreases n - i,
    {
        if str_eq(targets[i].address.as_str(), addr) {
            proof {
                assert(targets_view(targets@)[i as int].address == addr@);
            }
            return true;
        }
        i = i + 1;
    }
    proof {
        assert(forall|k: int|
            0 <= k < n ==> (#[trigger] targets_view(targets@)[k]).address != addr@);
    }
    false
}

// ---------------------------------------------------------------------------
// Selecting the calls of one trace that touch the registry.
// ---------------------------------------------------------------------------

/// Whether an extracted call touches the registry on either side.
pub open spec fn retained(c: CallView, targets: Seq<TargetView>) -> bool {
    is_target_addr(targets, c.to) || is_target_addr(targets, c.from)
}

/// The calls kept from a flattened trace, in order.
pub open spec fn selected(calls: Seq<CallView>, targets: Seq<TargetView>) -> Seq<CallView>
    decreases calls.len(),
{
    if calls.len() == 0 {
        Seq::empty()
    } else {
        let rest = selected(calls.drop_first(), targets);
        if retained(calls[0], targets) {
            seq![calls[0]] + rest
        } else {
            rest
        }
    }
}

/// Flatten one raw trace under the toplevel sentinel and keep, in pre-order,
/// the calls whose sender or receiver is a registry target.
pub fn select_calls(root: TraceNode, targets: &Vec<Target>) -> (r: Vec<FlatCall>)
    ensures
        r@.map_values(|c: FlatCall| c@) == selected(
            root.toplevel_flatten(),
            targets_view(targets@),
        ),
{
    let ghost calls = root.toplevel_flatten();
    let marked = root.with_toplevel();
    let flat = marked.flatten();
    proof {
        assert(marked.flatten_spec() =~= calls) by {
            assert(marked.node_call() == calls[0]);
            assert(TraceNode::flatten_forest(marked.calls@) == TraceNode::flatten_forest(
                root.calls@,
            ));
        }
    }
    let ghost tv = targets_view(targets@);
    let mut out: Vec<FlatCall> = Vec::new();
    let n = flat.len();
    let mut i: usize = 0;
    proof {
        assert(out@.map_values(|c: FlatCall| c@) =~= Seq::<CallView>::empty());
        assert(calls.skip(0) =~= calls);
        assert(Seq::<CallView>::empty() + selected(calls, tv) =~= selected(calls, tv));
    }
    while i < n
        invariant
            i <= n,
            n == flat@.len(),
            flat@.map_values(|c: FlatCall| c@) == calls,
            tv == targets_view(targets@),
            out@.map_values(|c: FlatCall| c@) + selected(calls.skip(i as int), tv) == selected(
                calls,
                tv,
            ),
        decreases n - i,
    {
        proof {
            assert(calls.skip(i as int)[0] == calls[i as int]);
            assert(calls.skip(i as int).drop_first() =~= calls.skip(i as int + 1));
            assert(flat@.map_values(|c: FlatCall| c@)[i as int] == flat@[i as int]@);
        }
        let keep = if targets_contain(targets, flat[i].to.as_str()) {
            true
        } else {
            targets_contain(targets, flat[i].from.as_str())
        };
        if keep {
            let c = FlatCall {
                call_type: flat[i].call_type.clone(),
                selector: flat[i].selector.clone(),
                from: flat[i].from.clone(),
                to: flat[i].to.clone(),
            };
            let ghost out0 = out@.map_values(|c: FlatCall| c@);
            out.push(c);
            proof {
                assert(c@ == calls[i as int]);
                assert(out@.map_values(|c: FlatCall| c@) =~= out0.push(calls[i as int]));
                assert(out0.push(calls[i as int]) + selected(calls.skip(i as int + 1), tv)
                    =~= out0 + (seq![calls[i as int]] + selected(calls.skip(i as int + 1), tv)));
            }
        }
        i = i + 1;
    }
    proof {
        assert(calls.skip(n as int) =~= Seq::<CallView>::empty());
        assert(out@.map_values(|c: FlatCall| c@) + Seq::<CallView>::empty() =~= out@.map_values(
            |c: FlatCall| c@,
        ));
    }
    out
}

/// Assemble one enriched record from a selected call and its resolved
/// signature and names.
pub fn make_record(call: &FlatCall, signature: String, from_name: String, to_name: String) -> (r:
    Record)
    ensures
        r@ == (RecordView {
            call_type: call@.call_type,
            signature: signature@,
            from: call@.from,
            to: call@.to,
            from_name: from_name@,
            to_name: to_name@,
        }),
{
    Record {
        call_type: call.call_type.clone(),
        signature,
        from: call.from.clone(),
        to: call.to.clone(),
        from_name,
        to_name,
    }
}

// ---------------------------------------------------------------------------
// The tab-separated record line: the pipeline's intermediate table format.
// ---------------------------------------------------------------------------

/// The tab-separated line for one record, without a trailing newline.
pub open spec fn record_line(r: RecordView) -> Seq<char> {
    r.call_type + seq!['\t'] + r.signature + seq!['\t'] + r.from + seq!['\t'] + r.to + seq!['\t']
        + r.from_name + seq!['\t'] + r.to_name
}

/// Render one record as its output line.
pub fn render_record_line(r: &Record) -> (line: String)
    ensures
        line@ == record_line(r@),
{
    let mut out = r.call_type.as_str().to_owned();
    out.append("\t");
    out.append(r.signature.as_str());
    out.append("\t");
    out.append(r.from.as_str());
    out.append("\t");
    out.append(r.to.as_str());
    out.append("\t");
    out.append(r.from_name.as_str());
    out.append("\t");
    out.append(r.to_name.as_str());
    proof {
        reveal_strlit("\t");
        assert(out@ =~= record_line(r@));
    }
    out
}

/// One record parsed back from a line of the intermediate table: six fields
/// split at tabs, anything after a sixth tab ignored. `None` when the line
/// has fewer than six fields.
pub open spec fn record_of_line(line: Seq<char>) -> Option<RecordView> {
    let t1 = find_from(line, '\t', 0);
    let t2 = find_from(line, '\t', t1 + 1);
    let t3 = find_from(line, '\t', t2 + 1);
    let t4 = find_from(line, '\t', t3 + 1);
    let t5 = find_from(line, '\t', t4 + 1);
    let t6 = find_from(line, '\t', t5 + 1);
    if t5 == line.len() {
        None
    } else {
        Some(
            RecordView {
                call_type: line.subrange(0, t1),
                signature: line.subrange(t1 + 1, t2),
                from: line.subrange(t2 + 1, t3),
                to: line.subrange(t3 + 1, t4),
                from_name: line.subrange(t4 + 1, t5),
                to_name: line.subrange(t5 + 1, t6),
            },
        )
    }
}

/// Parse one line of the intermediate table.
pub fn parse_record_line(line: &str) -> (r: Option<Record>)
    ensures
        match r {
            Some(rec) => record_of_line(line@) == Some(rec@),
            None => record_of_line(line@) is None,
        },
{
    let n = line.unicode_len();
    let t1 = find_char_from(line, '\t', 0);
    proof {
        lemma_find_from_props(line@, '\t', 0);
    }
    let t2 = if t1 == n {
        n
    } else {
        find_char_from(line, '\t', t1 + 1)
    };
    proof {
        if t1 != n {
            lemma_find_from_props(line@, '\t', t1 as int + 1);
        }
    }
    let t3 = if t2 == n {
        n
    } else {
        find_char_from(line, '\t', t2 + 1)
    };
    proof {
        if t2 != n {
            lemma_find_from_props(line@, '\t', t2 as int + 1);
        }
    }
    let t4 = if t3 == n {
        n
    } else {
        find_char_from(line, '\t', t3 + 1)
    };
    proof {
        if t3 != n {
            lemma_find_from_props(line@, '\t', t3 as int + 1);
        }
    }
    let t5 = if t4 == n {
        n
    } else {
        find_char_from(line, '\t', t4 + 1)
    };
    proof {
        if t4 != n {
            lemma_find_from_props(line@, '\t', t4 as int + 1);
        }
    }
    if t5 == n {
        proof {
            if t1 == n {
                assert(find_from(line@, '\t', t1 as int + 1) == n);
            }
            if t2 == n {
                assert(find_from(line@, '\t', t2 as int + 1) == n);
            }
            if t3 == n {
                assert(find_from(line@, '\t', t3 as int + 1) == n);
            }
            if t4 == n {
                assert(find_from(line@, '\t', t4 as int + 1) == n);
            }
        }
        return None;
    }
    let t6 = find_char_from(line, '\t', t5 + 1);
    proof {
        lemma_find_from_props(line@, '\t', t5 as int + 1);
    }
    Some(
        Record {
            call_type: line.substring_char(0, t1).to_owned(),
            signature: line.substring_char(t1 + 1, t2).to_owned(),
            from: line.substring_char(t2 + 1, t3).to_owned(),
            to: line.substring_char(t3 + 1, t4).to_owned(),
            from_name: line.substring_char(t4 + 1, t5).to_owned(),
            to_name: line.substring_char(t5 + 1, t6).to_owned(),
        },
    )
}

/// The records parsed from the persisted intermediate table, rows recording
/// the toplevel sentinel itself dropped; `None` when some line has fewer
/// than six fields.
pub open spec fn parse_data_spec(s: Seq<char>) -> Option<Seq<RecordView>>
    decreases s.len(),
    via parse_data_dec
{
    if s.len() == 0 {
        Some(Seq::empty())
    } else {
        let e = find_from(s, '\n', 0);
        let line = s.subrange(0, e);
        let rest = if e == s.len() as int {
            Seq::<char>::empty()
        } else {
            s.subrange(e + 1, s.len() as int)
        };
        match record_of_line(line) {
            Option::None => Option::None,
            Option::Some(r) => match parse_data_spec(rest) {
                Option::None => Option::None,
                Option::Some(t) => if r.call_type == "toplevel"@ {
                    Option::Some(t)
                } else {
                    Option::Some(seq![r] + t)
                },
            },
        }
    }
}

#[via_fn]
proof fn parse_data_dec(s: Seq<char>) {
    if s.len() > 0 {
        lemma_find_from_props(s, '\n', 0);
    }
}

/// Load the report's records from the full text of the intermediate table.
pub fn parse_data(s: &str) -> (r: Result<Vec<Record>, InputError>)
    ensures
        match r {
            Ok(v) => parse_data_spec(s@) == Some(records_view(v@)),
            Err(_) => parse_data_spec(s@) is None,
        },
    decreases s@.len(),
{
    let n = s.unicode_len();
    if n == 0 {
        let v: Vec<Record> = Vec::new();
        proof {
            assert(records_view(v@) =~= Seq::<RecordView>::empty());
        }
        return Ok(v);
    }
    proof {
        lemma_find_from_props(s@, '\n', 0);
    }
    let e = find_char_from(s, '\n', 0);
    let line = s.substring_char(0, e);
    match parse_record_line(line) {
        None => Err(InputError::MalformedLine),
        Some(rec) => {
            let rest = if e == n {
                s.substring_char(n, n)
            } else {
                s.substring_char(e + 1, n)
            };
            proof {
                if e == n {
                    assert(rest@ =~= Seq::<char>::empty());
                }
            }
            match parse_data(rest) {
                Err(err) => Err(err),
                Ok(mut t) => {
                    if is_report_row(&rec) {
                        t.insert(0, rec);
                        proof {
                            assert(records_view(t@) =~= seq![t@[0]@] + records_view(
                                t@.drop_first(),
                            ));
                        }
                        Ok(t)
                    } else {
                        Ok(t)
                    }
                },
            }
        },
    }
}

/// Whether a stored record belongs in a report: rows recording the toplevel
/// sentinel itself are dropped before sheets are built.
pub fn is_report_row(r: &Record) -> (b: bool)
    ensures
        b == (r@.call_type != "toplevel"@),
{
    !str_eq(r.call_type.as_str(), "toplevel")
}

// ---------------------------------------------------------------------------
// The stream protocol: one JSON trace per line, ended by a DONE sentinel.
// ---------------------------------------------------------------------------

pub open spec fn is_ws(c: char) -> bool {
    c == ' ' || c == '\t' || c == '\n' || c == '\r'
}

/// `s` with leading whitespace removed.
pub open spec fn trim_front(s: Seq<char>) -> Seq<char>
    decreases s.len(),
{
    if s.len() > 0 && is_ws(s[0]) {
        trim_front(s.drop_first())
    } else {
        s
    }
}

/// `s` with trailing whitespace removed.
pub open spec fn trim_back(s: Seq<char>) -> Seq<char>
    decreases s.len(),
{
    if s.len() > 0 && is_ws(s.last()) {
        trim_back(s.drop_last())
    } else {
        s
    }
}

pub open spec fn trimmed(s: Seq<char>) -> Seq<char> {
    trim_back(trim_front(s))
}

proof fn lemma_trim_front_skip(s: Seq<char>, i: int)
    requires
        0 <= i <= s.len(),
        forall|k: int| 0 <= k < i ==> is_ws(s[k]),
    ensures
        trim_front(s) == trim_front(s.skip(i)),
    decreases i,
{
    if i > 0 {
        assert(trim_front(s) == trim_front(s.drop_first()));
        assert(s.drop_first() =~= s.skip(1));
        lemma_trim_front_skip(s.skip(1), i - 1);
        assert(s.skip(1).skip(i - 1) =~= s.skip(i));
    } else {
        assert(s.skip(0) =~= s);
    }
}

proof fn lemma_trim_back_take(s: Seq<char>, i: int)
    requires
        0 <= i <= s.len(),
        forall|k: int| i <= k < s.len() ==> is_ws(s[k]),
    ensures
        trim_back(s) == trim_back(s.take(i)),
    decreases s.len() - i,
{
    if i < s.len() {
        assert(is_ws(s.last()));
        assert(trim_back(s) == trim_back(s.drop_last()));
        assert(s.drop_last() =~= s.take(s.len() as int - 1));
        lemma_trim_back_take(s.take(s.len() as int - 1), i);
        assert(s.take(s.len() as int - 1).take(i) =~= s.take(i));
    } else {
        assert(s.take(i) =~= s);
    }
}

fn is_ws_char(c: char) -> (r: bool)
    ensures
        r == is_ws(c),
{
    c == ' ' || c == '\t' || c == '\n' || c == '\r'
}

/// Whether an input line is the stream-ending sentinel: `DONE` once
/// surrounding whitespace is trimmed.
pub fn is_done_line(line: &str) -> (r: bool)
    ensures
        r == (trimmed(line@) == "DONE"@),
{
    let n = line.unicode_len();
    let mut a: usize = 0;
    let mut front_done = false;
    while !front_done && a < n
        invariant
            a <= n,
            n == line@.len(),
            forall|k: int| 0 <= k < a ==> is_ws(line@[k]),
            front_done ==> a < n && !is_ws(line@[a as int]),
        decreases (if front_done { 0int } else { 1int }), n - a,
    {
        if is_ws_char(line.get_char(a)) {
            a = a + 1;
        } else {
            front_done = true;
        }
    }
    let mut b: usize = n;
    let mut back_done = false;
    while !back_done && b > a
        invariant
            a <= b <= n,
            n == line@.len(),
            forall|k: int| 0 <= k < a ==> is_ws(line@[k]),
            forall|k: int| b <= k < n ==> is_ws(line@[k]),
            back_done ==> b > a && !is_ws(line@[b - 1]),
        decreases (if back_done { 0int } else { 1int }), b,
    {
        if is_ws_char(line.get_char(b - 1)) {
            b = b - 1;
        } else {
            back_done = true;
        }
    }
    proof {
        if !front_done {
            assert(a == n);
        }
        if !back_done {
            assert(b == a);
        }
    }
    let core = line.substring_char(a, b);
    proof {
        lemma_trim_front_skip(line@, a as int);
        let f = line@.skip(a as int);
        if a < n {
            assert(!is_ws(f[0]));
            assert(trim_front(f) == f);
        } else {
            assert(f =~= Seq::<char>::empty());
        }
        lemma_trim_back_take(f, b - a);
        let g = f.take(b - a);
        if b > a {
            assert(g.last() == line@[b - 1]);
            assert(!is_ws(g.last()));
            assert(trim_back(g) == g);
        } else {
            assert(g =~= Seq::<char>::empty());
        }
        assert(core@ =~= g);
    }
    str_eq(core, "DONE")
}

} // verus!
