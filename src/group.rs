use vstd::prelude::*;

use crate::bytes::{bytes_eq, copy_bytes, views};
use crate::param::{allowed, contains_name, FilterParam, Mode};
use crate::record::{classify_line, classify_spec, FormatError, Record, RecordView, SUPPLEMENTARY};

verus! {

/// A group as Verus sees it.
pub struct GroupView {
    pub qname: Seq<u8>,
    pub lines: Seq<Seq<u8>>,
    pub has_supplementary: bool,
    pub len: nat,
}

/// The run of contiguous records with one identifier that is being read.
pub struct Group {
    /// The identifier shared by the lines.
    pub qname: Vec<u8>,
    /// The lines, in input order.
    pub lines: Vec<Vec<u8>>,
    /// Whether some line's flag marks a supplementary alignment.
    pub has_supplementary: bool,
    /// The sequence length of the first line.
    pub len: usize,
}

impl View for Group {
    type V = GroupView;

    open spec fn view(&self) -> GroupView {
        GroupView {
            qname: self.qname@,
            lines: views(self.lines@),
            has_supplementary: self.has_supplementary,
            len: self.len as nat,
        }
    }
}

/// One unit of output: a header line, or a group that was accepted.
pub enum Emit {
    Header(Seq<u8>),
    Group(GroupView),
}

pub open spec fn is_supplementary(r: RecordView) -> bool {
    r.flag & SUPPLEMENTARY != 0
}

/// The group that a record opens.
pub open spec fn open_group(r: RecordView, line: Seq<u8>) -> GroupView {
    GroupView {
        qname: r.qname,
        lines: seq![line],
        has_supplementary: is_supplementary(r),
        len: r.len,
    }
}

/// The group after one more record with its identifier; its length stays.
pub open spec fn extend_group(g: GroupView, r: RecordView, line: Seq<u8>) -> GroupView {
    GroupView {
        qname: g.qname,
        lines: g.lines.push(line),
        has_supplementary: g.has_supplementary || is_supplementary(r),
        len: g.len,
    }
}

/// Whether a group meets every rule of `p`: the allow-list, the
/// supplementary mode, and both exclusive length bounds.
pub open spec fn accepts(p: FilterParam, g: GroupView) -> bool {
    &&& allowed(p, g.qname)
    &&& (p.supplementary == Mode::Sel ==> g.has_supplementary)
    &&& (p.supplementary == Mode::Del ==> !g.has_supplementary)
    &&& g.len > p.greater_len
    &&& g.len < p.smaller_len
}

/// What closing a group emits.
pub open spec fn flush(p: FilterParam, g: GroupView) -> Seq<Emit> {
    if accepts(p, g) {
        seq![Emit::Group(g)]
    } else {
        Seq::empty()
    }
}

/// One line read in state `st`: the next state and what is emitted.
pub open spec fn step(p: FilterParam, st: Option<GroupView>, line: Seq<u8>) -> Result<
    (Option<GroupView>, Seq<Emit>),
    FormatError,
> {
    match classify_spec(line) {
        Err(e) => Err(e),
        Ok(None) => Ok((st, seq![Emit::Header(line)])),
        Ok(Some(r)) => match st {
            None => Ok((Some(open_group(r, line)), Seq::empty())),
            Some(g) => if g.qname == r.qname {
                Ok((Some(extend_group(g, r, line)), Seq::empty()))
            } else {
                Ok((Some(open_group(r, line)), flush(p, g)))
            },
        },
    }
}

/// The state and the output after reading `lines` from the empty state;
/// the first line that cannot be read gives the error.
pub open spec fn run(p: FilterParam, lines: Seq<Seq<u8>>) -> Result<
    (Option<GroupView>, Seq<Emit>),
    FormatError,
>
    decreases lines.len(),
{
    if lines.len() == 0 {
        Ok((None, Seq::empty()))
    } else {
        match run(p, lines.drop_last()) {
            Err(e) => Err(e),
            Ok((st, evs)) => match step(p, st, lines.last()) {
                Err(e) => Err(e),
                Ok((st2, evs2)) => Ok((st2, evs + evs2)),
            },
        }
    }
}

/// What the end of the input emits.
pub open spec fn finish_spec(p: FilterParam, st: Option<GroupView>) -> Seq<Emit> {
    match st {
        Some(g) => flush(p, g),
        None => Seq::empty(),
    }
}

/// Everything that a whole input emits.
pub open spec fn filter_spec(p: FilterParam, lines: Seq<Seq<u8>>) -> Result<Seq<Emit>, FormatError> {
    match run(p, lines) {
        Err(e) => Err(e),
        Ok((st, evs)) => Ok(evs + finish_spec(p, st)),
    }
}

/// The lines that an output unit writes to the main output.
pub open spec fn emit_lines(e: Emit) -> Seq<Seq<u8>> {
    match e {
        Emit::Header(l) => seq![l],
        Emit::Group(g) => g.lines,
    }
}

/// The main output: each header, and the lines of each accepted group.
pub open spec fn primary(evs: Seq<Emit>) -> Seq<Seq<u8>>
    decreases evs.len(),
{
    if evs.len() == 0 {
        Seq::empty()
    } else {
        primary(evs.drop_last()) + emit_lines(evs.last())
    }
}

/// The identifiers of the accepted groups, in order.
pub open spec fn group_ids(evs: Seq<Emit>) -> Seq<Seq<u8>>
    decreases evs.len(),
{
    if evs.len() == 0 {
        Seq::empty()
    } else {
        group_ids(evs.drop_last()) + match evs.last() {
            Emit::Header(_) => Seq::empty(),
            Emit::Group(g) => seq![g.qname],
        }
    }
}

/// What the identifier output receives.
pub open spec fn sink(p: FilterParam, evs: Seq<Emit>) -> Seq<Seq<u8>> {
    if p.qname_output {
        group_ids(evs)
    } else {
        Seq::empty()
    }
}

pub proof fn lemma_single(e: Emit)
    ensures
        primary(seq![e]) == emit_lines(e),
        group_ids(seq![e]) == match e {
            Emit::Header(_) => Seq::<Seq<u8>>::empty(),
            Emit::Group(g) => seq![g.qname],
        },
{
    let evs = seq![e];
    assert(evs.drop_last() =~= Seq::<Emit>::empty());
    assert(primary(evs.drop_last()) == Seq::<Seq<u8>>::empty());
    assert(group_ids(evs.drop_last()) == Seq::<Seq<u8>>::empty());
    assert(primary(evs) =~= emit_lines(e));
    assert(group_ids(evs) =~= match e {
        Emit::Header(_) => Seq::<Seq<u8>>::empty(),
        Emit::Group(g) => seq![g.qname],
    });
}

pub proof fn lemma_primary_append(a: Seq<Emit>, b: Seq<Emit>)
    ensures
        primary(a + b) == primary(a) + primary(b),
    decreases b.len(),
{
    if b.len() == 0 {
        assert(a + b =~= a);
        assert(primary(a) + primary(b) =~= primary(a));
    } else {
        assert((a + b).drop_last() =~= a + b.drop_last());
        lemma_primary_append(a, b.drop_last());
        assert(primary(a + b) =~= primary(a) + primary(b));
    }
}

pub proof fn lemma_group_ids_append(a: Seq<Emit>, b: Seq<Emit>)
    ensures
        group_ids(a + b) == group_ids(a) + group_ids(b),
    decreases b.len(),
{
    if b.len() == 0 {
        assert(a + b =~= a);
        assert(group_ids(a) + group_ids(b) =~= group_ids(a));
    } else {
        assert((a + b).drop_last() =~= a + b.drop_last());
        lemma_group_ids_append(a, b.drop_last());
        assert(group_ids(a + b) =~= group_ids(a) + group_ids(b));
    }
}

pub proof fn lemma_sink_append(p: FilterParam, a: Seq<Emit>, b: Seq<Emit>)
    ensures
        sink(p, a + b) == sink(p, a) + sink(p, b),
{
    lemma_group_ids_append(a, b);
    if !p.qname_output {
        assert(Seq::<Seq<u8>>::empty() + Seq::empty() =~= Seq::<Seq<u8>>::empty());
    }
}

/// Once a line cannot be read, the error stands whatever follows.
pub proof fn lemma_run_error_stays(p: FilterParam, lines: Seq<Seq<u8>>, k: int)
    requires
        0 <= k <= lines.len(),
        run(p, lines.take(k)) is Err,
    ensures
        run(p, lines) == run(p, lines.take(k)),
    decreases lines.len(),
{
    if k == lines.len() {
        assert(lines.take(k) =~= lines);
    } else {
        assert(lines.drop_last().take(k) =~= lines.take(k));
        lemma_run_error_stays(p, lines.drop_last(), k);
    }
}

/// What one call of [`Filter::feed`] or [`Filter::finish`] asks to write.
pub struct Output {
    /// Lines for the main output, in order, each to be ended by a newline.
    pub lines: Vec<Vec<u8>>,
    /// Identifiers for the identifier output, in order.
    pub qnames: Vec<Vec<u8>>,
}

/// Whether `o` writes what `evs` emits under `p`.
pub open spec fn writes(p: FilterParam, o: Output, evs: Seq<Emit>) -> bool {
    &&& views(o.lines@) == primary(evs)
    &&& views(o.qnames@) == sink(p, evs)
}

/// Whether the rules of `p` accept group `g`, checked in order: the
/// allow-list, the supplementary mode, the lower and the upper bound.
pub fn passes(p: &FilterParam, g: &Group) -> (r: bool)
    ensures
        r == accepts(*p, g@),
{
    if let Some(list) = &p.qname_input {
        if !contains_name(list, g.qname.as_slice()) {
            return false;
        }
    }
    if p.supplementary == Mode::Sel && !g.has_supplementary {
        return false;
    }
    if p.supplementary == Mode::Del && g.has_supplementary {
        return false;
    }
    if g.len <= p.greater_len as usize {
        return false;
    }
    if g.len >= p.smaller_len as usize {
        return false;
    }
    true
}

/// The output of closing group `g`: all its lines and, where asked, its
/// identifier when the rules accept it; nothing otherwise.
pub fn write_filter(p: &FilterParam, g: Group) -> (r: Output)
    ensures
        writes(*p, r, flush(*p, g@)),
{
    let ghost gv = g@;
    if passes(p, &g) {
        let mut qnames: Vec<Vec<u8>> = Vec::new();
        if p.qname_output {
            qnames.push(g.qname);
        }
        proof {
            let evs = seq![Emit::Group(gv)];
            lemma_single(Emit::Group(gv));
            assert(views(qnames@) =~= sink(*p, evs));
        }
        Output { lines: g.lines, qnames }
    } else {
        let r = Output { lines: Vec::new(), qnames: Vec::new() };
        assert(views(r.lines@) =~= Seq::<Seq<u8>>::empty());
        assert(views(r.qnames@) =~= Seq::<Seq<u8>>::empty());
        r
    }
}

/// The group that record `rec`, read from `line`, opens.
fn start_group(rec: Record, line: Vec<u8>) -> (g: Group)
    ensures
        g@ == open_group(rec@, line@),
{
    let has_supplementary = rec.flag & SUPPLEMENTARY != 0;
    let mut lines: Vec<Vec<u8>> = Vec::new();
    lines.push(line);
    let g = Group { qname: rec.qname, lines, has_supplementary, len: rec.len };
    assert(g@.lines =~= seq![line@]);
    g
}

/// The streaming filter: at most one group is held at a time.
pub struct Filter {
    open: Option<Group>,
}

impl Filter {
    /// The group being read, if any.
    pub closed spec fn state(&self) -> Option<GroupView> {
        match self.open {
            Some(g) => Some(g@),
            None => None,
        }
    }

    /// A filter that holds no group.
    pub fn new() -> (r: Filter)
        ensures
            r.state() is None,
    {
        Filter { open: None }
    }

    /// Reads one line. A header is written at once; a record joins the
    /// open group, or closes it and opens the next.
    pub fn feed(&mut self, p: &FilterParam, line: Vec<u8>) -> (r: Result<Output, FormatError>)
        ensures
            match step(*p, old(self).state(), line@) {
                Ok((st, evs)) => r is Ok && final(self).state() == st && writes(*p, r->Ok_0, evs),
                Err(e) => r == Err::<Output, FormatError>(e) && final(self).state() == old(self).state(),
            },
    {
        let rec = match classify_line(line.as_slice()) {
            Err(e) => {
                return Err(e);
            },
            Ok(None) => {
                let mut lines: Vec<Vec<u8>> = Vec::new();
                lines.push(line);
                let o = Output { lines, qnames: Vec::new() };
                proof {
                    let evs = seq![Emit::Header(line@)];
                    lemma_single(Emit::Header(line@));
                    assert(views(o.lines@) =~= seq![line@]);
                    assert(views(o.qnames@) =~= sink(*p, evs));
                }
                return Ok(o);
            },
            Ok(Some(rec)) => rec,
        };
        let empty = Output { lines: Vec::new(), qnames: Vec::new() };
        assert(views(empty.lines@) =~= primary(Seq::<Emit>::empty()));
        assert(views(empty.qnames@) =~= sink(*p, Seq::<Emit>::empty()));
        match self.open.take() {
            None => {
                self.open = Some(start_group(rec, line));
                Ok(empty)
            },
            Some(mut g) => {
                if bytes_eq(g.qname.as_slice(), rec.qname.as_slice()) {
                    let ghost g0 = g@;
                    if rec.flag & SUPPLEMENTARY != 0 {
                        g.has_supplementary = true;
                    }
                    g.lines.push(line);
                    assert(g@.lines =~= g0.lines.push(line@));
                    self.open = Some(g);
                    Ok(empty)
                } else {
                    let o = write_filter(p, g);
                    self.open = Some(start_group(rec, line));
                    Ok(o)
                }
            },
        }
    }

    /// Ends the input: closes the open group, if any.
    pub fn finish(&mut self, p: &FilterParam) -> (r: Output)
        ensures
            writes(*p, r, finish_spec(*p, old(self).state())),
            final(self).state() is None,
    {
        match self.open.take() {
            None => {
                let o = Output { lines: Vec::new(), qnames: Vec::new() };
                assert(views(o.lines@) =~= primary(Seq::<Emit>::empty()));
                assert(views(o.qnames@) =~= sink(*p, Seq::<Emit>::empty()));
                o
            },
            Some(g) => write_filter(p, g),
        }
    }
}

/// Filters a whole input held in memory: the lines to write and the
/// identifiers to report, or the error of the first line that cannot be read.
pub fn filter_lines(p: &FilterParam, lines: &Vec<Vec<u8>>) -> (r: Result<Output, FormatError>)
    ensures
        match filter_spec(*p, views(lines@)) {
            Ok(evs) => r is Ok && writes(*p, r->Ok_0, evs),
            Err(e) => r == Err::<Output, FormatError>(e),
        },
{
    let ghost input = views(lines@);
    let mut f = Filter::new();
    let mut out = Output { lines: Vec::new(), qnames: Vec::new() };
    let ghost evs: Seq<Emit> = Seq::empty();
    assert(input.take(0) =~= Seq::<Seq<u8>>::empty());
    assert(views(out.lines@) =~= primary(evs));
    assert(views(out.qnames@) =~= sink(*p, evs));
    let mut i: usize = 0;
    while i < lines.len()
        invariant
            i <= lines@.len(),
            input == views(lines@),
            run(*p, input.take(i as int)) == Ok::<(Option<GroupView>, Seq<Emit>), FormatError>(
                (f.state(), evs),
            ),
            writes(*p, out, evs),
        decreases lines@.len() - i,
    {
        let line = copy_bytes(lines[i].as_slice());
        assert(input.take(i + 1).drop_last() =~= input.take(i as int));
        assert(input.take(i + 1).last() == line@);
        match f.feed(p, line) {
            Err(e) => {
                proof {
                    lemma_run_error_stays(*p, input, i + 1);
                }
                return Err(e);
            },
            Ok(mut o) => {
                let ghost step_evs = match step(*p, run(*p, input.take(i as int))->Ok_0.0, line@) {
                    Ok((_, e)) => e,
                    Err(_) => Seq::empty(),
                };
                proof {
                    lemma_primary_append(evs, step_evs);
                    lemma_sink_append(*p, evs, step_evs);
                }
                let ghost l0 = out.lines@;
                let ghost q0 = out.qnames@;
                let ghost l1 = o.lines@;
                let ghost q1 = o.qnames@;
                out.lines.append(&mut o.lines);
                out.qnames.append(&mut o.qnames);
                assert(views(out.lines@) =~= views(l0) + views(l1));
                assert(views(out.qnames@) =~= views(q0) + views(q1));
                proof {
                    evs = evs + step_evs;
                }
            },
        }
        i = i + 1;
    }
    assert(input.take(i as int) =~= input);
    let ghost before = evs;
    let mut o = f.finish(p);
    proof {
        lemma_primary_append(before, finish_spec(*p, run(*p, input)->Ok_0.0));
        lemma_sink_append(*p, before, finish_spec(*p, run(*p, input)->Ok_0.0));
    }
    let ghost l0 = out.lines@;
    let ghost q0 = out.qnames@;
    let ghost l1 = o.lines@;
    let ghost q1 = o.qnames@;
    out.lines.append(&mut o.lines);
    out.qnames.append(&mut o.qnames);
    assert(views(out.lines@) =~= views(l0) + views(l1));
    assert(views(out.qnames@) =~= views(q0) + views(q1));
    Ok(out)
}

} // verus!
