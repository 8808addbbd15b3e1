//! Properties of the filter over whole inputs.
use vstd::prelude::*;

use crate::group::{
    accepts, emit_lines, filter_spec, finish_spec, flush, group_ids, lemma_primary_append,
    lemma_single, primary, run, sink, step, Emit, GroupView,
};
use crate::param::{allowed, FilterParam};
use crate::record::{classify_spec, is_header, split_fields};

verus! {

/// The identifier field of a line.
pub open spec fn record_id(l: Seq<u8>) -> Seq<u8> {
    split_fields(l)[0]
}

/// The header lines of `s`, in order.
pub open spec fn headers(s: Seq<Seq<u8>>) -> Seq<Seq<u8>>
    decreases s.len(),
{
    if s.len() == 0 {
        Seq::empty()
    } else if is_header(s.last()) {
        headers(s.drop_last()).push(s.last())
    } else {
        headers(s.drop_last())
    }
}

/// Whether no line of `s` is a header.
pub open spec fn no_headers(s: Seq<Seq<u8>>) -> bool {
    forall|i: int| 0 <= i < s.len() ==> !is_header(#[trigger] s[i])
}

/// A group holds at least one line, and each is a record with its identifier.
pub open spec fn group_wf(g: GroupView) -> bool {
    &&& g.lines.len() >= 1
    &&& no_headers(g.lines)
    &&& forall|i: int| 0 <= i < g.lines.len() ==> record_id(#[trigger] g.lines[i]) == g.qname
}

/// Each group in `evs` is well formed and accepted by `p`.
pub open spec fn emitted_wf(p: FilterParam, evs: Seq<Emit>) -> bool {
    forall|k: int|
        0 <= k < evs.len() ==> match #[trigger] evs[k] {
            Emit::Group(g) => group_wf(g) && accepts(p, g),
            Emit::Header(l) => is_header(l),
        }
}

pub open spec fn state_wf(st: Option<GroupView>) -> bool {
    match st {
        Some(g) => group_wf(g),
        None => true,
    }
}

proof fn lemma_headers_append(a: Seq<Seq<u8>>, b: Seq<Seq<u8>>)
    ensures
        headers(a + b) == headers(a) + headers(b),
    decreases b.len(),
{
    if b.len() == 0 {
        assert(a + b =~= a);
        assert(headers(a) + headers(b) =~= headers(a));
    } else {
        assert((a + b).drop_last() =~= a + b.drop_last());
        lemma_headers_append(a, b.drop_last());
        assert(headers(a + b) =~= headers(a) + headers(b));
    }
}

proof fn lemma_headers_none(s: Seq<Seq<u8>>)
    requires
        no_headers(s),
    ensures
        headers(s) == Seq::<Seq<u8>>::empty(),
    decreases s.len(),
{
    if s.len() > 0 {
        assert(no_headers(s.drop_last()));
        lemma_headers_none(s.drop_last());
    }
}

proof fn lemma_headers_all(s: Seq<Seq<u8>>)
    requires
        forall|i: int| 0 <= i < s.len() ==> is_header(#[trigger] s[i]),
    ensures
        headers(s) == s,
    decreases s.len(),
{
    if s.len() > 0 {
        lemma_headers_all(s.drop_last());
        assert(headers(s) =~= s);
    }
}

proof fn lemma_emitted_wf_append(p: FilterParam, a: Seq<Emit>, b: Seq<Emit>)
    requires
        emitted_wf(p, a),
        emitted_wf(p, b),
    ensures
        emitted_wf(p, a + b),
{
    assert forall|k: int| 0 <= k < (a + b).len() implies match #[trigger] (a + b)[k] {
        Emit::Group(g) => group_wf(g) && accepts(p, g),
        Emit::Header(l) => is_header(l),
    } by {
        if k < a.len() {
            assert((a + b)[k] == a[k]);
        } else {
            assert((a + b)[k] == b[k - a.len()]);
        }
    }
}

proof fn lemma_flush_wf(p: FilterParam, g: GroupView)
    requires
        group_wf(g),
    ensures
        emitted_wf(p, flush(p, g)),
{
}

/// What one step emits is well formed, and so is the state it leaves.
proof fn lemma_step_wf(p: FilterParam, st: Option<GroupView>, line: Seq<u8>)
    requires
        state_wf(st),
        step(p, st, line) is Ok,
    ensures
        state_wf(step(p, st, line)->Ok_0.0),
        emitted_wf(p, step(p, st, line)->Ok_0.1),
{
    if let Ok(Some(r)) = classify_spec(line) {
        assert(seq![line][0] == line);
        match st {
            Some(g) => {
                if g.qname == r.qname {
                    let g2 = g.lines.push(line);
                    assert forall|i: int| 0 <= i < g2.len() implies !is_header(#[trigger] g2[i])
                        && record_id(g2[i]) == g.qname by {
                        if i < g.lines.len() {
                            assert(g2[i] == g.lines[i]);
                        }
                    }
                } else {
                    lemma_flush_wf(p, g);
                }
            },
            None => {},
        }
    }
}

/// Every state that reading reaches, and everything emitted, is well formed.
pub proof fn lemma_run_wf(p: FilterParam, lines: Seq<Seq<u8>>)
    requires
        run(p, lines) is Ok,
    ensures
        state_wf(run(p, lines)->Ok_0.0),
        emitted_wf(p, run(p, lines)->Ok_0.1),
    decreases lines.len(),
{
    if lines.len() > 0 {
        lemma_run_wf(p, lines.drop_last());
        let (st, evs) = run(p, lines.drop_last())->Ok_0;
        lemma_step_wf(p, st, lines.last());
        lemma_emitted_wf_append(p, evs, step(p, st, lines.last())->Ok_0.1);
    }
}

pub proof fn lemma_filter_wf(p: FilterParam, lines: Seq<Seq<u8>>)
    requires
        filter_spec(p, lines) is Ok,
    ensures
        emitted_wf(p, filter_spec(p, lines)->Ok_0),
{
    lemma_run_wf(p, lines);
    let (st, evs) = run(p, lines)->Ok_0;
    if let Some(g) = st {
        lemma_flush_wf(p, g);
    }
    lemma_emitted_wf_append(p, evs, finish_spec(p, st));
}

/// The main output of well-formed units: headers where headers were
/// emitted, and the lines of the groups in between.
proof fn lemma_primary_headers(p: FilterParam, evs: Seq<Emit>)
    requires
        emitted_wf(p, evs),
    ensures
        headers(primary(evs)) == headers_of(evs),
    decreases evs.len(),
{
    if evs.len() > 0 {
        assert(emitted_wf(p, evs.drop_last())) by {
            assert forall|k: int| 0 <= k < evs.drop_last().len() implies match #[trigger] evs.drop_last()[k] {
                Emit::Group(g) => group_wf(g) && accepts(p, g),
                Emit::Header(l) => is_header(l),
            } by {
                assert(evs.drop_last()[k] == evs[k]);
            }
        }
        lemma_primary_headers(p, evs.drop_last());
        lemma_headers_append(primary(evs.drop_last()), emit_lines(evs.last()));
        assert(evs.last() == evs[evs.len() - 1]);
        match evs.last() {
            Emit::Header(l) => {
                lemma_headers_all(seq![l]);
            },
            Emit::Group(g) => {
                lemma_headers_none(g.lines);
            },
        }
    }
}

/// The header lines among the emitted units.
pub open spec fn headers_of(evs: Seq<Emit>) -> Seq<Seq<u8>>
    decreases evs.len(),
{
    if evs.len() == 0 {
        Seq::empty()
    } else {
        headers_of(evs.drop_last()) + match evs.last() {
            Emit::Header(l) => seq![l],
            Emit::Group(_) => Seq::empty(),
        }
    }
}

proof fn lemma_headers_of_append(a: Seq<Emit>, b: Seq<Emit>)
    ensures
        headers_of(a + b) == headers_of(a) + headers_of(b),
    decreases b.len(),
{
    if b.len() == 0 {
        assert(a + b =~= a);
        assert(headers_of(a) + headers_of(b) =~= headers_of(a));
    } else {
        assert((a + b).drop_last() =~= a + b.drop_last());
        lemma_headers_of_append(a, b.drop_last());
        assert(headers_of(a + b) =~= headers_of(a) + headers_of(b));
    }
}

proof fn lemma_headers_of_flush(p: FilterParam, g: GroupView)
    ensures
        headers_of(flush(p, g)) == Seq::<Seq<u8>>::empty(),
{
    if accepts(p, g) {
        let evs = seq![Emit::Group(g)];
        assert(evs.drop_last() =~= Seq::<Emit>::empty());
        assert(headers_of(evs.drop_last()) == Seq::<Seq<u8>>::empty());
        assert(headers_of(evs) =~= Seq::<Seq<u8>>::empty());
    }
}

/// The headers emitted while reading are the header lines read.
proof fn lemma_run_headers(p: FilterParam, lines: Seq<Seq<u8>>)
    requires
        run(p, lines) is Ok,
    ensures
        headers_of(run(p, lines)->Ok_0.1) == headers(lines),
    decreases lines.len(),
{
    if lines.len() > 0 {
        lemma_run_headers(p, lines.drop_last());
        let (st, evs) = run(p, lines.drop_last())->Ok_0;
        let l = lines.last();
        let evs2 = step(p, st, l)->Ok_0.1;
        lemma_headers_of_append(evs, evs2);
        match classify_spec(l) {
            Ok(None) => {
                let e = seq![Emit::Header(l)];
                assert(e.drop_last() =~= Seq::<Emit>::empty());
                assert(headers_of(e.drop_last()) == Seq::<Seq<u8>>::empty());
                assert(headers_of(e) =~= seq![l]);
            },
            _ => {
                match st {
                    Some(g) => {
                        lemma_headers_of_flush(p, g);
                    },
                    None => {},
                }
            },
        }
        assert(headers_of(run(p, lines)->Ok_0.1) =~= headers(lines));
    }
}

/// Every header line of the input reaches the main output, unchanged and in
/// order, whatever the rules; nothing else there is a header.
pub proof fn headers_pass_through(p: FilterParam, lines: Seq<Seq<u8>>)
    requires
        filter_spec(p, lines) is Ok,
    ensures
        headers(primary(filter_spec(p, lines)->Ok_0)) == headers(lines),
{
    lemma_filter_wf(p, lines);
    lemma_run_headers(p, lines);
    let (st, evs) = run(p, lines)->Ok_0;
    lemma_headers_of_append(evs, finish_spec(p, st));
    if let Some(g) = st {
        lemma_headers_of_flush(p, g);
    }
    assert(headers_of(evs) + Seq::<Seq<u8>>::empty() =~= headers_of(evs));
    lemma_primary_headers(p, filter_spec(p, lines)->Ok_0);
}

/// Each line of the main output is a header or carries the identifier of
/// a group that `p` accepted; each identifier reported is that of such a group.
proof fn lemma_primary_allowed(p: FilterParam, evs: Seq<Emit>)
    requires
        emitted_wf(p, evs),
    ensures
        forall|i: int|
            0 <= i < primary(evs).len() && !is_header(#[trigger] primary(evs)[i]) ==> allowed(
                p,
                record_id(primary(evs)[i]),
            ),
        forall|i: int| 0 <= i < group_ids(evs).len() ==> allowed(p, #[trigger] group_ids(evs)[i]),
    decreases evs.len(),
{
    if evs.len() > 0 {
        let a = evs.drop_last();
        assert(emitted_wf(p, a)) by {
            assert forall|k: int| 0 <= k < a.len() implies match #[trigger] a[k] {
                Emit::Group(g) => group_wf(g) && accepts(p, g),
                Emit::Header(l) => is_header(l),
            } by {
                assert(a[k] == evs[k]);
            }
        }
        lemma_primary_allowed(p, a);
        assert(evs.last() == evs[evs.len() - 1]);
        let pa = primary(a);
        let b = emit_lines(evs.last());
        assert(primary(evs) == pa + b);
        assert forall|i: int|
            0 <= i < primary(evs).len() && !is_header(#[trigger] primary(evs)[i]) implies allowed(
            p,
            record_id(primary(evs)[i]),
        ) by {
            if i < pa.len() {
                assert(primary(evs)[i] == pa[i]);
            } else {
                assert(primary(evs)[i] == b[i - pa.len()]);
            }
        }
        let ga = group_ids(a);
        assert forall|i: int| 0 <= i < group_ids(evs).len() implies allowed(
            p,
            #[trigger] group_ids(evs)[i],
        ) by {
            if i < ga.len() {
                assert(group_ids(evs)[i] == ga[i]);
            }
        }
    }
}

/// With an allow-list, a group whose identifier is not on it writes
/// nothing: every record line written, and every identifier reported,
/// belongs to a listed identifier.
pub proof fn allow_list_exclusive(p: FilterParam, lines: Seq<Seq<u8>>)
    requires
        p.qname_input is Some,
        filter_spec(p, lines) is Ok,
    ensures
        ({
            let evs = filter_spec(p, lines)->Ok_0;
            let list = crate::bytes::views(p.qname_input->Some_0@);
            &&& forall|i: int|
                0 <= i < primary(evs).len() && !is_header(#[trigger] primary(evs)[i])
                    ==> list.contains(record_id(primary(evs)[i]))
            &&& forall|i: int| 0 <= i < sink(p, evs).len() ==> list.contains(#[trigger] sink(p, evs)[i])
        }),
{
    lemma_filter_wf(p, lines);
    lemma_primary_allowed(p, filter_spec(p, lines)->Ok_0);
}

/// Units that are all headers write themselves and report nothing.
proof fn lemma_only_headers(p: FilterParam, evs: Seq<Emit>)
    requires
        forall|k: int| 0 <= k < evs.len() ==> (#[trigger] evs[k]) is Header,
    ensures
        primary(evs) == headers_of(evs),
        group_ids(evs) == Seq::<Seq<u8>>::empty(),
    decreases evs.len(),
{
    if evs.len() > 0 {
        let a = evs.drop_last();
        assert forall|k: int| 0 <= k < a.len() implies (#[trigger] a[k]) is Header by {
            assert(a[k] == evs[k]);
        }
        lemma_only_headers(p, a);
        assert(evs.last() == evs[evs.len() - 1]);
        assert(group_ids(evs) =~= Seq::<Seq<u8>>::empty());
    }
}

/// Equal lower and upper bounds reject every group: the main output holds
/// the header lines alone, and no identifier is reported.
pub proof fn equal_bounds_reject_all(p: FilterParam, lines: Seq<Seq<u8>>)
    requires
        p.greater_len == p.smaller_len,
        filter_spec(p, lines) is Ok,
    ensures
        primary(filter_spec(p, lines)->Ok_0) == headers(lines),
        sink(p, filter_spec(p, lines)->Ok_0) == Seq::<Seq<u8>>::empty(),
{
    lemma_filter_wf(p, lines);
    let evs = filter_spec(p, lines)->Ok_0;
    assert forall|k: int| 0 <= k < evs.len() implies (#[trigger] evs[k]) is Header by {
        if let Emit::Group(g) = evs[k] {
            assert(accepts(p, g));
        }
    }
    lemma_only_headers(p, evs);
    lemma_run_headers(p, lines);
    let (st, evs0) = run(p, lines)->Ok_0;
    lemma_headers_of_append(evs0, finish_spec(p, st));
    if let Some(g) = st {
        lemma_headers_of_flush(p, g);
    }
    assert(headers_of(evs0) + Seq::<Seq<u8>>::empty() =~= headers_of(evs0));
}

/// The record that a line holds.
pub open spec fn record_of(l: Seq<u8>) -> crate::record::RecordView {
    classify_spec(l)->Ok_0->Some_0
}

/// Whether every line of `lines` is a record with identifier `q`.
pub open spec fn records_of(lines: Seq<Seq<u8>>, q: Seq<u8>) -> bool {
    forall|i: int|
        0 <= i < lines.len() ==> classify_spec(#[trigger] lines[i]) is Ok && classify_spec(
            lines[i],
        )->Ok_0 is Some && record_of(lines[i]).qname == q
}

/// Reading a run of records with one identifier opens one group, which holds
/// every line and the length of the first, and has a supplementary
/// alignment exactly when some line's flag marks one, whichever it is.
pub proof fn flag_aggregation(p: FilterParam, lines: Seq<Seq<u8>>)
    requires
        lines.len() >= 1,
        records_of(lines, record_of(lines[0]).qname),
    ensures
        run(p, lines) == Ok::<(Option<GroupView>, Seq<Emit>), crate::record::FormatError>(
            (
                Some(
                    GroupView {
                        qname: record_of(lines[0]).qname,
                        lines,
                        has_supplementary: exists|i: int|
                            0 <= i < lines.len() && crate::group::is_supplementary(
                                #[trigger] record_of(lines[i]),
                            ),
                        len: record_of(lines[0]).len,
                    },
                ),
                Seq::empty(),
            ),
        ),
    decreases lines.len(),
{
    let q = record_of(lines[0]).qname;
    let n = lines.len();
    let l = lines.last();
    assert(l == lines[n - 1]);
    if n == 1 {
        assert(lines.drop_last() =~= Seq::<Seq<u8>>::empty());
        assert(seq![l] =~= lines);
        if crate::group::is_supplementary(record_of(l)) {
            assert(crate::group::is_supplementary(record_of(lines[0])));
        }
        assert(Seq::<Emit>::empty() + Seq::<Emit>::empty() =~= Seq::<Emit>::empty());
    } else {
        let a = lines.drop_last();
        assert(a[0] == lines[0]);
        assert forall|i: int| 0 <= i < a.len() implies classify_spec(#[trigger] a[i]) is Ok
            && classify_spec(a[i])->Ok_0 is Some && record_of(a[i]).qname == q by {
            assert(a[i] == lines[i]);
        }
        flag_aggregation(p, a);
        assert(a.push(l) =~= lines);
        let before = exists|i: int|
            0 <= i < a.len() && crate::group::is_supplementary(#[trigger] record_of(a[i]));
        let after = exists|i: int|
            0 <= i < lines.len() && crate::group::is_supplementary(#[trigger] record_of(lines[i]));
        if before {
            let i = choose|i: int|
                0 <= i < a.len() && crate::group::is_supplementary(#[trigger] record_of(a[i]));
            assert(a[i] == lines[i]);
        }
        if after {
            let i = choose|i: int|
                0 <= i < lines.len() && crate::group::is_supplementary(
                    #[trigger] record_of(lines[i]),
                );
            if i < a.len() {
                assert(a[i] == lines[i]);
            }
        }
        assert(Seq::<Emit>::empty() + Seq::<Emit>::empty() =~= Seq::<Emit>::empty());
    }
}

/// The lines of the group being read, if any.
pub open spec fn open_lines(st: Option<GroupView>) -> Seq<Seq<u8>> {
    match st {
        Some(g) => g.lines,
        None => Seq::empty(),
    }
}

/// Whether no header comes after a record.
pub open spec fn headers_first(lines: Seq<Seq<u8>>) -> bool {
    forall|i: int, j: int|
        0 <= i < j < lines.len() && is_header(#[trigger] lines[j]) ==> is_header(#[trigger] lines[i])
}

/// Whether every record's length lies strictly between the default bounds.
pub open spec fn lengths_in_range(lines: Seq<Seq<u8>>) -> bool {
    forall|i: int|
        0 <= i < lines.len() ==> match classify_spec(#[trigger] lines[i]) {
            Ok(Some(r)) => 0 < r.len < u32::MAX,
            _ => true,
        }
}

proof fn lemma_run_identity(p: FilterParam, lines: Seq<Seq<u8>>)
    requires
        crate::param::is_default(p),
        headers_first(lines),
        lengths_in_range(lines),
        run(p, lines) is Ok,
    ensures
        ({
            let (st, evs) = run(p, lines)->Ok_0;
            &&& primary(evs) + open_lines(st) == lines
            &&& (st is None <==> forall|i: int| 0 <= i < lines.len() ==> is_header(#[trigger] lines[i]))
            &&& (st matches Some(g) ==> 0 < g.len < u32::MAX)
        }),
    decreases lines.len(),
{
    if lines.len() == 0 {
        assert(Seq::<Seq<u8>>::empty() + Seq::<Seq<u8>>::empty() =~= lines);
    } else {
        let n = lines.len();
        let a = lines.drop_last();
        let l = lines.last();
        assert(l == lines[n - 1]);
        assert forall|i: int, j: int|
            0 <= i < j < a.len() && is_header(#[trigger] a[j]) implies is_header(#[trigger] a[i]) by {
            assert(a[i] == lines[i] && a[j] == lines[j]);
        }
        assert forall|i: int| 0 <= i < a.len() implies match classify_spec(#[trigger] a[i]) {
            Ok(Some(r)) => 0 < r.len < u32::MAX,
            _ => true,
        } by {
            assert(a[i] == lines[i]);
        }
        lemma_run_identity(p, a);
        let (st0, evs0) = run(p, a)->Ok_0;
        let (st, evs2) = step(p, st0, l)->Ok_0;
        lemma_primary_append(evs0, evs2);
        assert(lines == a.push(l));
        match classify_spec(l) {
            Ok(None) => {
                assert forall|i: int| 0 <= i < a.len() implies is_header(#[trigger] a[i]) by {
                    assert(a[i] == lines[i]);
                }
                lemma_single(Emit::Header(l));
                assert(primary(evs0 + evs2) + open_lines(st) =~= lines);
                assert forall|i: int| 0 <= i < lines.len() implies is_header(#[trigger] lines[i]) by {
                    if i < a.len() {
                        assert(a[i] == lines[i]);
                    }
                }
            },
            Ok(Some(r)) => {
                match st0 {
                    None => {
                        assert(primary(evs2) =~= Seq::<Seq<u8>>::empty());
                        assert(primary(evs0 + evs2) + open_lines(st) =~= lines);
                    },
                    Some(g) => {
                        if g.qname == r.qname {
                            assert(primary(evs2) =~= Seq::<Seq<u8>>::empty());
                            assert(primary(evs0 + evs2) + open_lines(st) =~= lines);
                        } else {
                            assert(accepts(p, g));
                            lemma_single(Emit::Group(g));
                            assert(primary(evs0 + evs2) + open_lines(st) =~= lines);
                        }
                    },
                }
                assert(!(forall|i: int| 0 <= i < lines.len() ==> is_header(#[trigger] lines[i])));
            },
            Err(_) => {},
        }
    }
}

/// With default rules, the output is the input, line for line, provided
/// no header follows a record and every record's length lies strictly
/// between 0 and `u32::MAX`.
pub proof fn default_rules_keep_everything(p: FilterParam, lines: Seq<Seq<u8>>)
    requires
        crate::param::is_default(p),
        headers_first(lines),
        lengths_in_range(lines),
        filter_spec(p, lines) is Ok,
    ensures
        primary(filter_spec(p, lines)->Ok_0) == lines,
{
    lemma_run_identity(p, lines);
    let (st, evs) = run(p, lines)->Ok_0;
    lemma_primary_append(evs, finish_spec(p, st));
    match st {
        Some(g) => {
            assert(accepts(p, g));
            lemma_single(Emit::Group(g));
        },
        None => {
            assert(primary(Seq::<Emit>::empty()) == Seq::<Seq<u8>>::empty());
        },
    }
    assert(primary(evs) + open_lines(st) == lines);
    assert(primary(filter_spec(p, lines)->Ok_0) =~= lines);
}

/// The groups that were accepted, in the order they were emitted.
pub open spec fn accepted_groups(evs: Seq<Emit>) -> Seq<GroupView>
    decreases evs.len(),
{
    if evs.len() == 0 {
        Seq::empty()
    } else {
        accepted_groups(evs.drop_last()) + match evs.last() {
            Emit::Header(_) => Seq::empty(),
            Emit::Group(g) => seq![g],
        }
    }
}

/// The lines of `gs`, one group after the other.
pub open spec fn group_lines(gs: Seq<GroupView>) -> Seq<Seq<u8>>
    decreases gs.len(),
{
    if gs.len() == 0 {
        Seq::empty()
    } else {
        group_lines(gs.drop_last()) + gs.last().lines
    }
}

/// The record lines of `s`, in order.
pub open spec fn records(s: Seq<Seq<u8>>) -> Seq<Seq<u8>>
    decreases s.len(),
{
    if s.len() == 0 {
        Seq::empty()
    } else if is_header(s.last()) {
        records(s.drop_last())
    } else {
        records(s.drop_last()).push(s.last())
    }
}

proof fn lemma_records_append(a: Seq<Seq<u8>>, b: Seq<Seq<u8>>)
    ensures
        records(a + b) == records(a) + records(b),
    decreases b.len(),
{
    if b.len() == 0 {
        assert(a + b =~= a);
        assert(records(a) + records(b) =~= records(a));
    } else {
        assert((a + b).drop_last() =~= a + b.drop_last());
        lemma_records_append(a, b.drop_last());
        assert(records(a + b) =~= records(a) + records(b));
    }
}

proof fn lemma_records_none(s: Seq<Seq<u8>>)
    requires
        no_headers(s),
    ensures
        records(s) == s,
    decreases s.len(),
{
    if s.len() > 0 {
        assert(no_headers(s.drop_last()));
        lemma_records_none(s.drop_last());
        assert(records(s) =~= s);
    }
}

proof fn lemma_accepted_groups(p: FilterParam, evs: Seq<Emit>)
    requires
        emitted_wf(p, evs),
    ensures
        group_ids(evs) == accepted_groups(evs).map_values(|g: GroupView| g.qname),
        records(primary(evs)) == group_lines(accepted_groups(evs)),
        forall|k: int|
            0 <= k < accepted_groups(evs).len() ==> group_wf(#[trigger] accepted_groups(evs)[k])
                && accepts(p, accepted_groups(evs)[k]),
    decreases evs.len(),
{
    if evs.len() > 0 {
        let a = evs.drop_last();
        assert(emitted_wf(p, a)) by {
            assert forall|k: int| 0 <= k < a.len() implies match #[trigger] a[k] {
                Emit::Group(g) => group_wf(g) && accepts(p, g),
                Emit::Header(l) => is_header(l),
            } by {
                assert(a[k] == evs[k]);
            }
        }
        lemma_accepted_groups(p, a);
        assert(evs.last() == evs[evs.len() - 1]);
        let ga = accepted_groups(a);
        lemma_records_append(primary(a), emit_lines(evs.last()));
        match evs.last() {
            Emit::Header(l) => {
                let one = seq![l];
                assert(one.drop_last() =~= Seq::<Seq<u8>>::empty());
                assert(records(one.drop_last()) == Seq::<Seq<u8>>::empty());
                assert(records(one) =~= Seq::<Seq<u8>>::empty());
                assert(accepted_groups(evs) =~= ga);
                assert(group_ids(evs) =~= group_ids(a));
                assert(records(primary(evs)) =~= records(primary(a)));
            },
            Emit::Group(g) => {
                lemma_records_none(g.lines);
                let gs = accepted_groups(evs);
                assert(gs =~= ga.push(g));
                assert(gs.drop_last() =~= ga);
                assert(group_ids(evs).len() == gs.len());
                assert(group_ids(evs) =~= gs.map_values(|g: GroupView| g.qname));
                assert(records(primary(evs)) =~= group_lines(gs));
                assert forall|k: int| 0 <= k < gs.len() implies group_wf(#[trigger] gs[k]) && accepts(
                    p,
                    gs[k],
                ) by {
                    if k < ga.len() {
                        assert(gs[k] == ga[k]);
                    }
                }
            },
        }
    }
}

/// With identifiers reported, the identifier output holds one line per
/// accepted group, that group's identifier, in the order in which the
/// groups' lines reach the main output; each group writes at least one
/// line, and every line it writes carries its identifier.
pub proof fn identifier_sink_order(p: FilterParam, lines: Seq<Seq<u8>>)
    requires
        p.qname_output,
        filter_spec(p, lines) is Ok,
    ensures
        ({
            let evs = filter_spec(p, lines)->Ok_0;
            let gs = accepted_groups(evs);
            &&& sink(p, evs) == gs.map_values(|g: GroupView| g.qname)
            &&& records(primary(evs)) == group_lines(gs)
            &&& forall|k: int| 0 <= k < gs.len() ==> group_wf(#[trigger] gs[k])
        }),
{
    lemma_filter_wf(p, lines);
    lemma_accepted_groups(p, filter_spec(p, lines)->Ok_0);
}

proof fn lemma_run_ok(p: FilterParam, lines: Seq<Seq<u8>>)
    requires
        forall|j: int| 0 <= j < lines.len() ==> classify_spec(#[trigger] lines[j]) is Ok,
    ensures
        run(p, lines) is Ok,
    decreases lines.len(),
{
    if lines.len() > 0 {
        let a = lines.drop_last();
        assert forall|j: int| 0 <= j < a.len() implies classify_spec(#[trigger] a[j]) is Ok by {
            assert(a[j] == lines[j]);
        }
        lemma_run_ok(p, a);
        assert(lines.last() == lines[lines.len() - 1]);
    }
}

/// A line that cannot be read ends the filter with its error: what follows
/// it is never looked at, and nothing is emitted.
pub proof fn first_bad_line_decides(p: FilterParam, lines: Seq<Seq<u8>>, k: int)
    requires
        0 <= k < lines.len(),
        classify_spec(lines[k]) is Err,
        forall|j: int| 0 <= j < k ==> classify_spec(#[trigger] lines[j]) is Ok,
    ensures
        filter_spec(p, lines) == Err::<Seq<Emit>, crate::record::FormatError>(
            classify_spec(lines[k])->Err_0,
        ),
{
    let t = lines.take(k + 1);
    assert(t.drop_last() =~= lines.take(k));
    assert(t.last() == lines[k]);
    assert forall|j: int| 0 <= j < lines.take(k).len() implies classify_spec(
        #[trigger] lines.take(k)[j],
    ) is Ok by {
        assert(lines.take(k)[j] == lines[j]);
    }
    lemma_run_ok(p, lines.take(k));
    crate::group::lemma_run_error_stays(p, lines, k + 1);
}

} // verus!
