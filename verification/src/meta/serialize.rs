use vstd::prelude::*;

verus! {

use vstd::string::StrSliceExecFns;
use vstd::string::StringExecFns;
use crate::error::Error;
use crate::meta::Branch;
use crate::meta::BranchView;
use crate::meta::Metadata;
use crate::meta::MetaView;
use crate::meta::Patches;
use crate::meta::Properties;
use crate::meta::branch::branch_is_empty;
use crate::meta::branches::bviews_has;
use crate::meta::branches::bviews_insert;
use crate::meta::properties::pairs_has;
use crate::meta::properties::pairs_insert;
use crate::text::canonical_id;
use crate::text::find_space;
use crate::text::first_space;
use crate::text::lines_of;
use crate::text::parse_id;
use crate::text::split_lines;
use crate::text::trim;
use crate::text::trimmed;
use crate::text::valid_id_text;
use crate::text::views_of;

/// One directive of the line-oriented metadata body.
#[derive(Debug)]
pub enum Line {
    /// `%name`: a bare flag in the current scope.
    PropertyFlag { name: String },
    /// `%name value`: a name/value pair in the current scope.
    PropertyValue { name: String, value: String },
    /// `@name`: opens a branch section.
    Branch { name: String },
    /// `#id`: appends toward the bottom of the open branch's hidden queue.
    PatchHidden { id: String },
    /// `-id`: appends toward the bottom of the open branch's popped queue.
    PatchPopped { id: String },
    /// `+id`: appends toward the bottom of the open branch's pushed queue.
    PatchPushed { id: String },
    /// A non-blank line that matches no directive.
    Invalid { text: String },
    /// A blank line, ignored.
    Empty,
}

/// The mathematical value of one directive line.
pub ghost enum LineV {
    Flag(Seq<char>),
    Value(Seq<char>, Seq<char>),
    Branch(Seq<char>),
    Hidden(Seq<char>),
    Popped(Seq<char>),
    Pushed(Seq<char>),
    Invalid(Seq<char>),
    Empty,
}

impl View for Line {
    type V = LineV;

    open spec fn view(&self) -> LineV {
        match self {
            Line::PropertyFlag { name } => LineV::Flag(name@),
            Line::PropertyValue { name, value } => LineV::Value(name@, value@),
            Line::Branch { name } => LineV::Branch(name@),
            Line::PatchHidden { id } => LineV::Hidden(id@),
            Line::PatchPopped { id } => LineV::Popped(id@),
            Line::PatchPushed { id } => LineV::Pushed(id@),
            Line::Invalid { text } => LineV::Invalid(text@),
            Line::Empty => LineV::Empty,
        }
    }
}

/// How one text line reads as a directive: the line is trimmed, its
/// first character picks the directive, and a property line splits at
/// its first space into a trimmed name and a trimmed value.
pub open spec fn classify(l: Seq<char>) -> LineV {
    let t = trimmed(l);
    if t.len() == 0 {
        LineV::Empty
    } else {
        let rest = t.skip(1);
        if t[0] == '%' {
            let i = first_space(rest);
            if i == rest.len() {
                LineV::Flag(rest)
            } else {
                LineV::Value(trimmed(rest.take(i)), trimmed(rest.skip(i + 1)))
            }
        } else if t[0] == '@' {
            LineV::Branch(rest)
        } else if t[0] == '#' {
            LineV::Hidden(rest)
        } else if t[0] == '-' {
            LineV::Popped(rest)
        } else if t[0] == '+' {
            LineV::Pushed(rest)
        } else {
            LineV::Invalid(t)
        }
    }
}

impl Line {
    /// Reads one text line as a directive.
    pub fn from_str(line: &str) -> (r: Line)
        ensures
            r@ == classify(line@),
    {
        let t = trim(line);
        let n: usize = t.unicode_len();
        if n == 0 {
            return Line::Empty;
        }
        let m = t.get_char(0);
        let rest = t.substring_char(1, n);
        proof {
            assert(rest@ =~= t@.skip(1));
        }
        if m == '%' {
            match find_space(rest) {
                Some(i) => {
                    let rn: usize = rest.unicode_len();
                    let name = trim(rest.substring_char(0, i));
                    let value = trim(rest.substring_char(i + 1, rn));
                    proof {
                        assert(rest@.subrange(0, i as int) =~= rest@.take(i as int));
                        assert(rest@.subrange(i + 1, rn as int) =~= rest@.skip(i + 1));
                    }
                    Line::PropertyValue { name: name.to_owned(), value: value.to_owned() }
                },
                None => Line::PropertyFlag { name: rest.to_owned() },
            }
        } else if m == '@' {
            Line::Branch { name: rest.to_owned() }
        } else if m == '#' {
            Line::PatchHidden { id: rest.to_owned() }
        } else if m == '-' {
            Line::PatchPopped { id: rest.to_owned() }
        } else if m == '+' {
            Line::PatchPushed { id: rest.to_owned() }
        } else {
            Line::Invalid { text: t.to_owned() }
        }
    }
}

/// The serialized text of one property line.
pub open spec fn prop_line_text(p: (Seq<char>, Option<Seq<char>>)) -> Seq<char> {
    match p.1 {
        None => seq!['%'] + p.0 + seq!['\n'],
        Some(v) => seq!['%'] + p.0 + seq![' '] + v + seq!['\n'],
    }
}

/// The serialized text of a property scope, one line per entry.
pub open spec fn props_text(s: Seq<(Seq<char>, Option<Seq<char>>)>) -> Seq<char>
    decreases s.len(),
{
    if s.len() == 0 {
        Seq::empty()
    } else {
        prop_line_text(s[0]) + props_text(s.drop_first())
    }
}

/// The serialized text of one patch queue, top first, one line per
/// identifier, each opened by the queue's marker character.
pub open spec fn queue_text(m: char, ids: Seq<Seq<char>>) -> Seq<char>
    decreases ids.len(),
{
    if ids.len() == 0 {
        Seq::empty()
    } else {
        seq![m] + ids[0] + seq!['\n'] + queue_text(m, ids.drop_first())
    }
}

/// The serialized text of one branch section; an empty record is
/// omitted entirely.
pub open spec fn branch_text(b: BranchView) -> Seq<char> {
    if branch_is_empty(b) {
        Seq::empty()
    } else {
        seq!['\n', '@'] + b.name + seq!['\n'] + props_text(b.props) + queue_text('#', b.hidden)
            + queue_text('-', b.popped) + queue_text('+', b.pushed)
    }
}

pub open spec fn branches_text(bs: Seq<BranchView>) -> Seq<char>
    decreases bs.len(),
{
    if bs.len() == 0 {
        Seq::empty()
    } else {
        branch_text(bs[0]) + branches_text(bs.drop_first())
    }
}

/// The whole serialized body: root properties, then each non-empty
/// branch section, in sorted order throughout.
pub open spec fn meta_text(m: MetaView) -> Seq<char> {
    props_text(m.props) + branches_text(m.branches)
}

pub proof fn lemma_props_text_push(s: Seq<(Seq<char>, Option<Seq<char>>)>, x: (
    Seq<char>,
    Option<Seq<char>>,
))
    ensures
        props_text(s.push(x)) == props_text(s) + prop_line_text(x),
    decreases s.len(),
{
    let e = Seq::<(Seq<char>, Option<Seq<char>>)>::empty();
    if s.len() == 0 {
        assert(s.push(x)[0] == x);
        assert(s.push(x).drop_first() =~= e);
        assert(props_text(e) == Seq::<char>::empty());
        assert(props_text(s.push(x)) == prop_line_text(x) + props_text(e));
        assert(props_text(s.push(x)) =~= props_text(s) + prop_line_text(x));
    } else {
        assert(s.push(x).drop_first() =~= s.drop_first().push(x));
        assert(props_text(s.push(x).drop_first()) == props_text(s.drop_first().push(x)));
        lemma_props_text_push(s.drop_first(), x);
        assert(s.push(x)[0] == s[0]);
        assert(props_text(s.push(x)) == prop_line_text(s[0]) + (props_text(s.drop_first())
            + prop_line_text(x)));
        assert(props_text(s) == prop_line_text(s[0]) + props_text(s.drop_first()));
        assert(props_text(s.push(x)) =~= props_text(s) + prop_line_text(x));
    }
}

pub proof fn lemma_queue_text_push(m: char, s: Seq<Seq<char>>, x: Seq<char>)
    ensures
        queue_text(m, s.push(x)) == queue_text(m, s) + (seq![m] + x + seq!['\n']),
    decreases s.len(),
{
    let e = Seq::<Seq<char>>::empty();
    if s.len() == 0 {
        assert(s.push(x)[0] == x);
        assert(s.push(x).drop_first() =~= e);
        assert(queue_text(m, e) == Seq::<char>::empty());
        assert(queue_text(m, s.push(x)) == seq![m] + x + seq!['\n'] + queue_text(m, e));
        assert(queue_text(m, s.push(x)) =~= queue_text(m, s) + (seq![m] + x + seq!['\n']));
    } else {
        assert(s.push(x).drop_first() =~= s.drop_first().push(x));
        assert(queue_text(m, s.push(x).drop_first()) == queue_text(m, s.drop_first().push(x)));
        lemma_queue_text_push(m, s.drop_first(), x);
        assert(s.push(x)[0] == s[0]);
        assert(queue_text(m, s.push(x)) == seq![m] + s[0] + seq!['\n'] + (queue_text(
            m,
            s.drop_first(),
        ) + (seq![m] + x + seq!['\n'])));
        assert(queue_text(m, s) == seq![m] + s[0] + seq!['\n'] + queue_text(m, s.drop_first()));
        assert(queue_text(m, s.push(x)) =~= queue_text(m, s) + (seq![m] + x + seq!['\n']));
    }
}

pub proof fn lemma_branches_text_push(s: Seq<BranchView>, x: BranchView)
    ensures
        branches_text(s.push(x)) == branches_text(s) + branch_text(x),
    decreases s.len(),
{
    let e = Seq::<BranchView>::empty();
    if s.len() == 0 {
        assert(s.push(x)[0] == x);
        assert(s.push(x).drop_first() =~= e);
        assert(branches_text(e) == Seq::<char>::empty());
        assert(branches_text(s.push(x)) == branch_text(x) + branches_text(e));
        assert(branches_text(s.push(x)) =~= branches_text(s) + branch_text(x));
    } else {
        assert(s.push(x).drop_first() =~= s.drop_first().push(x));
        assert(branches_text(s.push(x).drop_first()) == branches_text(s.drop_first().push(x)));
        lemma_branches_text_push(s.drop_first(), x);
        assert(s.push(x)[0] == s[0]);
        assert(branches_text(s.push(x)) == branch_text(s[0]) + (branches_text(s.drop_first())
            + branch_text(x)));
        assert(branches_text(s) == branch_text(s[0]) + branches_text(s.drop_first()));
        assert(branches_text(s.push(x)) =~= branches_text(s) + branch_text(x));
    }
}

/// Appends the lines of one property scope.
fn append_props(out: &mut String, props: &Properties)
    ensures
        final(out)@ == old(out)@ + props_text(props.entries()),
{
    let ghost e = props.entries();
    let n: usize = props.items.len();
    let mut i: usize = 0;
    proof {
        assert(e.take(0) =~= Seq::<(Seq<char>, Option<Seq<char>>)>::empty());
    }
    while i < n
        invariant
            0 <= i <= n,
            n == props.items@.len(),
            e == props.entries(),
            out@ == old(out)@ + props_text(e.take(i as int)),
        decreases n - i,
    {
        out.append("%");
        out.append(props.items[i].name.as_str());
        match &props.items[i].value {
            Some(v) => {
                out.append(" ");
                out.append(v.as_str());
            },
            None => {},
        }
        out.append("\n");
        proof {
            reveal_strlit("%");
            reveal_strlit(" ");
            reveal_strlit("\n");
            assert(e.take(i + 1) =~= e.take(i as int).push(e[i as int]));
            lemma_props_text_push(e.take(i as int), e[i as int]);
            assert(e[i as int] == (props.items@[i as int].name@, crate::meta::properties::opt_view(
                props.items@[i as int].value,
            )));
            assert(out@ =~= old(out)@ + props_text(e.take(i + 1)));
        }
        i = i + 1;
    }
    proof {
        assert(e.take(n as int) =~= e);
    }
}

/// Appends the lines of one patch queue under its marker.
fn append_queue(out: &mut String, marker: &str, q: &Patches)
    requires
        marker@.len() == 1,
    ensures
        final(out)@ == old(out)@ + queue_text(marker@[0], q@),
{
    let ghost mc = marker@[0];
    let ghost ids = q@;
    let n: usize = q.ids.len();
    let mut i: usize = 0;
    proof {
        assert(ids.take(0) =~= Seq::<Seq<char>>::empty());
    }
    while i < n
        invariant
            0 <= i <= n,
            n == q.ids@.len(),
            ids == q@,
            mc == marker@[0],
            marker@.len() == 1,
            out@ == old(out)@ + queue_text(mc, ids.take(i as int)),
        decreases n - i,
    {
        out.append(marker);
        out.append(q.ids[i].as_str());
        out.append("\n");
        proof {
            reveal_strlit("\n");
            assert(marker@ =~= seq![mc]);
            assert(ids.take(i + 1) =~= ids.take(i as int).push(ids[i as int]));
            lemma_queue_text_push(mc, ids.take(i as int), ids[i as int]);
            assert(out@ =~= old(out)@ + queue_text(mc, ids.take(i + 1)));
        }
        i = i + 1;
    }
    proof {
        assert(ids.take(n as int) =~= ids);
    }
}

/// Appends one branch section; an empty record appends nothing.
fn append_branch(out: &mut String, b: &Branch)
    ensures
        final(out)@ == old(out)@ + branch_text(b@),
{
    if b.is_empty() {
        return ;
    }
    proof {
        reveal_strlit("\n@");
        reveal_strlit("\n");
        reveal_strlit("#");
        reveal_strlit("-");
        reveal_strlit("+");
    }
    out.append("\n@");
    out.append(b.name.as_str());
    out.append("\n");
    append_props(out, &b.properties);
    append_queue(out, "#", &b.hidden);
    append_queue(out, "-", &b.popped);
    append_queue(out, "+", &b.pushed);
    proof {
        assert("\n@"@ =~= seq!['\n', '@']);
        assert("\n"@ =~= seq!['\n']);
        assert(out@ =~= old(out)@ + branch_text(b@));
    }
}

impl Metadata {
    /// Writes the snapshot as its line-oriented body text: the root
    /// properties sorted by name, then each non-empty branch section
    /// sorted by name, each queue written top first.
    pub fn to_text(&self) -> (r: String)
        ensures
            r@ == meta_text(self@),
    {
        let mut out = String::new();
        append_props(&mut out, &self.properties);
        let ghost bs = self.branches.views();
        let n: usize = self.branches.records.len();
        let mut i: usize = 0;
        proof {
            assert(bs.take(0) =~= Seq::<BranchView>::empty());
            assert(branches_text(bs.take(0)) =~= Seq::<char>::empty());
            assert(out@ =~= props_text(self.properties.entries()) + branches_text(bs.take(0)));
        }
        while i < n
            invariant
                0 <= i <= n,
                n == self.branches.records@.len(),
                bs == self.branches.views(),
                out@ == props_text(self.properties.entries()) + branches_text(bs.take(i as int)),
            decreases n - i,
        {
            append_branch(&mut out, &self.branches.records[i]);
            proof {
                assert(bs.take(i + 1) =~= bs.take(i as int).push(bs[i as int]));
                lemma_branches_text_push(bs.take(i as int), bs[i as int]);
                assert(bs[i as int] == self.branches.records@[i as int]@);
                assert(out@ =~= props_text(self.properties.entries()) + branches_text(
                    bs.take(i + 1),
                ));
            }
            i = i + 1;
        }
        proof {
            assert(bs.take(n as int) =~= bs);
        }
        out
    }
}

/// The accumulator of the body parser: root properties, finished
/// branch sections, and the currently open section.
#[verifier::ext_equal]
pub ghost struct ParseState {
    pub props: Seq<(Seq<char>, Option<Seq<char>>)>,
    pub branches: Seq<BranchView>,
    pub cur: Option<BranchView>,
}

/// How parsing a body can end.
pub ghost enum ParseOutcome {
    /// The whole body read cleanly.
    Parsed { meta: MetaView },
    /// A property name repeated within one scope.
    DupProp { line: int, name: Seq<char> },
    /// A branch section name repeated.
    DupBranch { line: int, name: Seq<char> },
    /// A patch directive outside any branch section.
    Orphan { line: int, id: Seq<char> },
    /// A patch identifier that is not a hexadecimal hash.
    BadId { line: int, id: Seq<char> },
    /// A line that matches no directive.
    Syntax { line: int, text: Seq<char> },
}

pub open spec fn parse_init() -> ParseState {
    ParseState { props: Seq::empty(), branches: Seq::empty(), cur: None }
}

/// Closes the open branch section, if any.
pub open spec fn parse_commit(st: ParseState) -> Seq<BranchView> {
    match st.cur {
        Some(b) => bviews_insert(st.branches, b),
        None => st.branches,
    }
}

/// The scope a property line lands in.
pub open spec fn scope_of(st: ParseState) -> Seq<(Seq<char>, Option<Seq<char>>)> {
    match st.cur {
        Some(b) => b.props,
        None => st.props,
    }
}

pub open spec fn set_scope(st: ParseState, k: Seq<char>, v: Option<Seq<char>>) -> ParseState {
    match st.cur {
        Some(b) => ParseState {
            cur: Some(BranchView { props: pairs_insert(b.props, k, v), ..b }),
            ..st
        },
        None => ParseState { props: pairs_insert(st.props, k, v), ..st },
    }
}

/// One parsing step per line; line numbers count from 0.
pub open spec fn parse_lines(lines: Seq<Seq<char>>, nr: int, st: ParseState) -> ParseOutcome
    decreases lines.len(),
{
    if lines.len() == 0 {
        ParseOutcome::Parsed {
            meta: MetaView { props: st.props, branches: parse_commit(st), source: None },
        }
    } else {
        let rest = lines.drop_first();
        match classify(lines[0]) {
            LineV::Empty => parse_lines(rest, nr + 1, st),
            LineV::Flag(name) => if pairs_has(scope_of(st), name) {
                ParseOutcome::DupProp { line: nr, name }
            } else {
                parse_lines(rest, nr + 1, set_scope(st, name, None))
            },
            LineV::Value(name, value) => if pairs_has(scope_of(st), name) {
                ParseOutcome::DupProp { line: nr, name }
            } else {
                parse_lines(rest, nr + 1, set_scope(st, name, Some(value)))
            },
            LineV::Branch(name) => {
                let committed = parse_commit(st);
                if bviews_has(committed, name) {
                    ParseOutcome::DupBranch { line: nr, name }
                } else {
                    parse_lines(
                        rest,
                        nr + 1,
                        ParseState {
                            props: st.props,
                            branches: committed,
                            cur: Some(crate::meta::empty_branch_view(name)),
                        },
                    )
                }
            },
            LineV::Hidden(id) => match st.cur {
                None => ParseOutcome::Orphan { line: nr, id },
                Some(b) => if !valid_id_text(id) {
                    ParseOutcome::BadId { line: nr, id }
                } else {
                    parse_lines(
                        rest,
                        nr + 1,
                        ParseState {
                            cur: Some(
                                BranchView { hidden: b.hidden + seq![canonical_id(id)], ..b },
                            ),
                            ..st
                        },
                    )
                },
            },
            LineV::Popped(id) => match st.cur {
                None => ParseOutcome::Orphan { line: nr, id },
                Some(b) => if !valid_id_text(id) {
                    ParseOutcome::BadId { line: nr, id }
                } else {
                    parse_lines(
                        rest,
                        nr + 1,
                        ParseState {
                            cur: Some(
                                BranchView { popped: b.popped + seq![canonical_id(id)], ..b },
                            ),
                            ..st
                        },
                    )
                },
            },
            LineV::Pushed(id) => match st.cur {
                None => ParseOutcome::Orphan { line: nr, id },
                Some(b) => if !valid_id_text(id) {
                    ParseOutcome::BadId { line: nr, id }
                } else {
                    parse_lines(
                        rest,
                        nr + 1,
                        ParseState {
                            cur: Some(
                                BranchView { pushed: b.pushed + seq![canonical_id(id)], ..b },
                            ),
                            ..st
                        },
                    )
                },
            },
            LineV::Invalid(text) => ParseOutcome::Syntax { line: nr, text },
        }
    }
}

/// Whether `e` is the error that the parsing outcome `o` calls for.
pub open spec fn error_of_outcome(o: ParseOutcome, e: Error) -> bool {
    match o {
        ParseOutcome::Parsed { .. } => false,
        ParseOutcome::DupProp { line, name } => match e {
            Error::DuplicateProperty { line: l, name: n } => l as int == line && n@ == name,
            _ => false,
        },
        ParseOutcome::DupBranch { line, name } => match e {
            Error::DuplicateBranch { line: l, name: n } => l as int == line && n@ == name,
            _ => false,
        },
        ParseOutcome::Orphan { line, id } => match e {
            Error::OrphanedPatch { line: l, id: i } => l as int == line && i@ == id,
            _ => false,
        },
        ParseOutcome::BadId { line, id } => match e {
            Error::InvalidId { line: l, id: i } => l as int == line && i@ == id,
            _ => false,
        },
        ParseOutcome::Syntax { line, text } => match e {
            Error::SyntaxError { line: l, text: t } => l as int == line && t@ == text,
            _ => false,
        },
    }
}

/// The view of the open branch record, if one is open.
pub open spec fn cur_view(c: &Option<Branch>) -> Option<BranchView> {
    match c {
        Some(b) => Some(b@),
        None => None,
    }
}

pub open spec fn cur_wf(c: &Option<Branch>) -> bool {
    match c {
        Some(b) => b.wf(),
        None => true,
    }
}

impl Metadata {
    /// Reads a body back into a snapshot. The outcome, success or the
    /// exact error, is the one `parse_lines` gives on the body's lines.
    pub fn parse(body: &str) -> (r: Result<Metadata, Error>)
        ensures
            match r {
                Ok(m) => m.wf() && m@.source is None && parse_lines(
                    lines_of(body@),
                    0,
                    parse_init(),
                ) == (ParseOutcome::Parsed { meta: m@ }),
                Err(e) => !(parse_lines(lines_of(body@), 0, parse_init()) is Parsed)
                    && error_of_outcome(parse_lines(lines_of(body@), 0, parse_init()), e),
            },
    {
        let ghost all = lines_of(body@);
        let lines = split_lines(body);
        let mut meta = Metadata::new();
        let mut cur: Option<Branch> = None;
        let n: usize = lines.len();
        let mut i: usize = 0;
        proof {
            assert(all.skip(0) =~= all);
        }
        while i < n
            invariant
                0 <= i <= n,
                n == lines@.len(),
                views_of(lines@) == all,
                all == lines_of(body@),
                meta.wf(),
                meta@.source is None,
                cur_wf(&cur),
                parse_lines(all, 0, parse_init()) == parse_lines(
                    all.skip(i as int),
                    i as int,
                    ParseState {
                        props: meta.properties.entries(),
                        branches: meta.branches.views(),
                        cur: cur_view(&cur),
                    },
                ),
            decreases n - i,
        {
            let ghost st = ParseState {
                props: meta.properties.entries(),
                branches: meta.branches.views(),
                cur: cur_view(&cur),
            };
            proof {
                assert(all.skip(i as int).len() > 0);
                assert(all.skip(i as int)[0] == all[i as int]);
                assert(all.skip(i as int).drop_first() =~= all.skip(i + 1));
                assert(all[i as int] == lines@[i as int]@);
            }
            let line = Line::from_str(lines[i].as_str());
            match line {
                Line::Empty => {},
                Line::PropertyFlag { name } => {
                    match &mut cur {
                        Some(b) => {
                            proof {
                                b.properties.lemma_entries();
                            }
                            if b.properties.contains(name.as_str()) {
                                return Err(Error::DuplicateProperty { line: i, name });
                            }
                            b.properties.set_flag(name.as_str());
                        },
                        None => {
                            proof {
                                meta.properties.lemma_entries();
                            }
                            if meta.properties.contains(name.as_str()) {
                                return Err(Error::DuplicateProperty { line: i, name });
                            }
                            meta.properties.set_flag(name.as_str());
                        },
                    }
                },
                Line::PropertyValue { name, value } => {
                    match &mut cur {
                        Some(b) => {
                            proof {
                                b.properties.lemma_entries();
                            }
                            if b.properties.contains(name.as_str()) {
                                return Err(Error::DuplicateProperty { line: i, name });
                            }
                            b.properties.set(name.as_str(), value);
                        },
                        None => {
                            proof {
                                meta.properties.lemma_entries();
                            }
                            if meta.properties.contains(name.as_str()) {
                                return Err(Error::DuplicateProperty { line: i, name });
                            }
                            meta.properties.set(name.as_str(), value);
                        },
                    }
                },
                Line::Branch { name } => {
                    match cur {
                        Some(b) => {
                            meta.branches.release(b);
                        },
                        None => {},
                    }
                    cur = None;
                    proof {
                        meta.branches.lemma_views();
                    }
                    if meta.branches.contains(name.as_str()) {
                        return Err(Error::DuplicateBranch { line: i, name });
                    }
                    cur = Some(Branch::new(name.as_str()));
                },
                Line::PatchHidden { id } => {
                    match &mut cur {
                        Some(b) => {
                            match parse_id(id.as_str()) {
                                Some(c) => {
                                    b.hidden.add_bottom(c);
                                },
                                None => {
                                    return Err(Error::InvalidId { line: i, id });
                                },
                            }
                        },
                        None => {
                            return Err(Error::OrphanedPatch { line: i, id });
                        },
                    }
                },
                Line::PatchPopped { id } => {
                    match &mut cur {
                        Some(b) => {
                            match parse_id(id.as_str()) {
                                Some(c) => {
                                    b.popped.add_bottom(c);
                                },
                                None => {
                                    return Err(Error::InvalidId { line: i, id });
                                },
                            }
                        },
                        None => {
                            return Err(Error::OrphanedPatch { line: i, id });
                        },
                    }
                },
                Line::PatchPushed { id } => {
                    match &mut cur {
                        Some(b) => {
                            match parse_id(id.as_str()) {
                                Some(c) => {
                                    b.pushed.add_bottom(c);
                                },
                                None => {
                                    return Err(Error::InvalidId { line: i, id });
                                },
                            }
                        },
                        None => {
                            return Err(Error::OrphanedPatch { line: i, id });
                        },
                    }
                },
                Line::Invalid { text } => {
                    return Err(Error::SyntaxError { line: i, text });
                },
            }
            i = i + 1;
        }
        proof {
            assert(all.skip(n as int) =~= Seq::<Seq<char>>::empty());
        }
        match cur {
            Some(b) => {
                meta.branches.release(b);
            },
            None => {},
        }
        Ok(meta)
    }
}


/// A flag name that serializes to a line reading back as itself: no
/// newline, no space, and no trailing whitespace (the marker guards
/// the front).
pub open spec fn wf_flag_name(k: Seq<char>) -> bool {
    crate::text::no_nl(k) && (forall|i: int| 0 <= i < k.len() ==> k[i] != ' ') && (k.len() > 0
        ==> !crate::text::is_space(k.last()))
}

/// The name of a name/value pair additionally reads back trimmed, so
/// it may not start with whitespace either.
pub open spec fn wf_value_name(k: Seq<char>) -> bool {
    wf_flag_name(k) && (k.len() > 0 ==> !crate::text::is_space(k[0]))
}

/// A property value that reads back as itself: non-empty, no newline,
/// and no whitespace at either edge.
pub open spec fn wf_prop_value(v: Seq<char>) -> bool {
    v.len() > 0 && crate::text::no_nl(v) && !crate::text::is_space(v[0]) && !crate::text::is_space(
        v.last(),
    )
}

/// A branch name that reads back as itself: no newline and no trailing
/// whitespace.
pub open spec fn wf_branch_name(n: Seq<char>) -> bool {
    crate::text::no_nl(n) && (n.len() > 0 ==> !crate::text::is_space(n.last()))
}

/// A property scope in canonical, readable form.
pub open spec fn wf_pairs(s: Seq<(Seq<char>, Option<Seq<char>>)>) -> bool {
    crate::meta::properties::pairs_sorted(s) && forall|i: int|
        0 <= i < s.len() ==> match (#[trigger] s[i]).1 {
            Some(v) => wf_value_name(s[i].0) && wf_prop_value(v),
            None => wf_flag_name(s[i].0),
        }
}

/// A branch record in canonical, readable form: something to
/// serialize, a readable name, a canonical scope, and canonical
/// identifiers throughout.
pub open spec fn wf_record(b: BranchView) -> bool {
    &&& !branch_is_empty(b)
    &&& wf_branch_name(b.name)
    &&& wf_pairs(b.props)
    &&& forall|i: int|
        0 <= i < b.hidden.len() ==> crate::text::is_canonical_id(#[trigger] b.hidden[i])
    &&& forall|i: int|
        0 <= i < b.popped.len() ==> crate::text::is_canonical_id(#[trigger] b.popped[i])
    &&& forall|i: int|
        0 <= i < b.pushed.len() ==> crate::text::is_canonical_id(#[trigger] b.pushed[i])
}

/// A snapshot whose body reads back as exactly the same snapshot.
pub open spec fn serializable(m: MetaView) -> bool {
    &&& wf_pairs(m.props)
    &&& crate::meta::branches::bviews_sorted(m.branches)
    &&& forall|i: int| 0 <= i < m.branches.len() ==> wf_record(#[trigger] m.branches[i])
}

/// The text of a property line before its newline.
pub open spec fn prop_line_body(p: (Seq<char>, Option<Seq<char>>)) -> Seq<char> {
    match p.1 {
        None => seq!['%'] + p.0,
        Some(v) => seq!['%'] + p.0 + seq![' '] + v,
    }
}

proof fn lemma_classify_flag(k: Seq<char>)
    requires
        wf_flag_name(k),
    ensures
        classify(seq!['%'] + k) == LineV::Flag(k),
{
    let l = seq!['%'] + k;
    assert(l[0] == '%');
    if k.len() > 0 {
        assert(l.last() == k.last());
    }
    crate::text::lemma_trimmed_id(l);
    assert(l.skip(1) =~= k);
    crate::text::lemma_first_space(k);
    if first_space(k) < k.len() {
        assert(k[first_space(k)] == ' ');
    }
}

proof fn lemma_classify_value(k: Seq<char>, v: Seq<char>)
    requires
        wf_value_name(k),
        wf_prop_value(v),
    ensures
        classify(seq!['%'] + k + seq![' '] + v) == LineV::Value(k, v),
{
    let l = seq!['%'] + k + seq![' '] + v;
    assert(l[0] == '%');
    assert(l.last() == v.last());
    crate::text::lemma_trimmed_id(l);
    let rest = l.skip(1);
    assert(rest =~= k + seq![' '] + v);
    crate::text::lemma_first_space(rest);
    assert(rest[k.len() as int] == ' ');
    assert forall|j: int| 0 <= j < k.len() implies rest[j] != ' ' by {
        assert(rest[j] == k[j]);
    }
    if first_space(rest) < k.len() {
        assert(rest[first_space(rest)] == ' ');
    }
    if first_space(rest) > k.len() {
        assert(rest[k.len() as int] != ' ');
    }
    assert(first_space(rest) == k.len());
    assert(rest.take(k.len() as int) =~= k);
    assert(rest.skip(k.len() as int + 1) =~= v);
    crate::text::lemma_trimmed_id(k);
    crate::text::lemma_trimmed_id(v);
}

proof fn lemma_classify_branch(n: Seq<char>)
    requires
        wf_branch_name(n),
    ensures
        classify(seq!['@'] + n) == LineV::Branch(n),
{
    let l = seq!['@'] + n;
    assert(l[0] == '@');
    if n.len() > 0 {
        assert(l.last() == n.last());
    }
    crate::text::lemma_trimmed_id(l);
    assert(l.skip(1) =~= n);
}

proof fn lemma_classify_patch(mk: char, id: Seq<char>)
    requires
        mk == '#' || mk == '-' || mk == '+',
        crate::text::is_canonical_id(id),
    ensures
        mk == '#' ==> classify(seq![mk] + id) == LineV::Hidden(id),
        mk == '-' ==> classify(seq![mk] + id) == LineV::Popped(id),
        mk == '+' ==> classify(seq![mk] + id) == LineV::Pushed(id),
{
    crate::text::lemma_canonical_fixed(id);
    let l = seq![mk] + id;
    assert(l[0] == mk);
    assert(l.last() == id.last());
    assert(!crate::text::is_space(id.last()));
    crate::text::lemma_trimmed_id(l);
    assert(l.skip(1) =~= id);
}

proof fn lemma_classify_empty()
    ensures
        classify(Seq::<char>::empty()) == LineV::Empty,
{
    assert(crate::text::trimmed(Seq::<char>::empty()).len() == 0);
}

/// The parser state with a scope extended at its top end.
pub open spec fn scope_plus(st: ParseState, ps: Seq<(Seq<char>, Option<Seq<char>>)>) -> ParseState {
    match st.cur {
        Some(b) => ParseState { cur: Some(BranchView { props: b.props + ps, ..b }), ..st },
        None => ParseState { props: st.props + ps, ..st },
    }
}

/// Reading the serialized lines of a scope extends the open scope with
/// exactly its entries, in order.
proof fn lemma_parse_props_text(
    ps: Seq<(Seq<char>, Option<Seq<char>>)>,
    rest: Seq<char>,
    nr: int,
    st: ParseState,
)
    requires
        wf_pairs(ps),
        forall|j: int, i: int|
            0 <= j < scope_of(st).len() && 0 <= i < ps.len() ==> crate::text::lex_lt(
                scope_of(st)[j].0,
                ps[i].0,
            ),
    ensures
        parse_lines(lines_of(props_text(ps) + rest), nr, st) == parse_lines(
            lines_of(rest),
            nr + ps.len(),
            scope_plus(st, ps),
        ),
    decreases ps.len(),
{
    if ps.len() == 0 {
        assert(props_text(ps) + rest =~= rest);
        match st.cur {
            Some(b) => {
                assert(b.props + ps =~= b.props);
                assert(BranchView { props: b.props + ps, ..b } =~= b);
                assert(scope_plus(st, ps) =~= st);
            },
            None => {
                assert(st.props + ps =~= st.props);
                assert(scope_plus(st, ps) =~= st);
            },
        }
    } else {
        let p = ps[0];
        let ps2 = ps.drop_first();
        let body = prop_line_body(p);
        let r1 = props_text(ps2) + rest;
        assert(props_text(ps) == prop_line_text(p) + props_text(ps2));
        assert(prop_line_text(p) =~= body + seq!['\n']);
        assert(props_text(ps) + rest =~= body + seq!['\n'] + r1);
        assert(crate::text::no_nl(body)) by {
            assert forall|i: int| 0 <= i < body.len() implies body[i] != '\n' by {
                match p.1 {
                    None => {
                        if i >= 1 {
                            assert(body[i] == p.0[i - 1]);
                        }
                    },
                    Some(v) => {
                        if 1 <= i < 1 + p.0.len() {
                            assert(body[i] == p.0[i - 1]);
                        } else if i > 1 + p.0.len() {
                            assert(body[i] == v[i - 2 - p.0.len()]);
                        }
                    },
                }
            }
        }
        crate::text::lemma_lines_cons(body, r1);
        let lines = lines_of(props_text(ps) + rest);
        assert(lines == seq![body] + lines_of(r1));
        assert(lines[0] == body);
        assert(lines.drop_first() =~= lines_of(r1));
        match p.1 {
            None => {
                lemma_classify_flag(p.0);
            },
            Some(v) => {
                lemma_classify_value(p.0, v);
            },
        }
        // the name is fresh in the scope read so far
        assert(!pairs_has(scope_of(st), p.0)) by {
            if pairs_has(scope_of(st), p.0) {
                let w = choose|j: int|
                    0 <= j < scope_of(st).len() && scope_of(st)[j].0 == p.0;
                crate::text::lemma_lex_lt_asymmetric(scope_of(st)[w].0, p.0);
            }
        }
        // appending at the top end is the sorted insert
        assert forall|j: int| 0 <= j < scope_of(st).len() implies crate::text::lex_lt(
            #[trigger] scope_of(st)[j].0,
            p.0,
        ) by {}
        crate::meta::properties::lemma_pairs_insert_end(scope_of(st), p.0, p.1);
        let st2 = set_scope(st, p.0, p.1);
        assert(scope_of(st2) =~= scope_of(st).push(p));
        assert forall|i: int, j: int| 0 <= i < j < ps.len() implies crate::text::lex_lt(
            ps[i].0,
            ps[j].0,
        ) by {}
        assert forall|j: int, i: int|
            0 <= j < scope_of(st2).len() && 0 <= i < ps2.len() implies crate::text::lex_lt(
            scope_of(st2)[j].0,
            ps2[i].0,
        ) by {
            assert(ps2[i] == ps[i + 1]);
            if j < scope_of(st).len() {
                assert(scope_of(st2)[j] == scope_of(st)[j]);
            } else {
                assert(scope_of(st2)[j] == p);
                assert(crate::text::lex_lt(ps[0].0, ps[i + 1].0));
            }
        }
        assert(wf_pairs(ps2)) by {
            assert forall|i: int| 0 <= i < ps2.len() implies match (#[trigger] ps2[i]).1 {
                Some(v) => wf_value_name(ps2[i].0) && wf_prop_value(v),
                None => wf_flag_name(ps2[i].0),
            } by {
                assert(ps2[i] == ps[i + 1]);
            }
            assert forall|i: int, j: int| 0 <= i < j < ps2.len() implies crate::text::lex_lt(
                ps2[i].0,
                ps2[j].0,
            ) by {
                assert(ps2[i] == ps[i + 1]);
                assert(ps2[j] == ps[j + 1]);
            }
        }
        lemma_parse_props_text(ps2, rest, nr + 1, st2);
        assert(scope_plus(st2, ps2) =~= scope_plus(st, ps)) by {
            match st.cur {
                Some(b) => {
                    assert((b.props + seq![p]) + ps2 =~= b.props + ps);
                    assert(scope_plus(st2, ps2).cur matches Some(b2) && b2 =~= (BranchView {
                        props: b.props + ps,
                        ..b
                    }));
                },
                None => {
                    assert((st.props + seq![p]) + ps2 =~= st.props + ps);
                },
            }
        }
        assert(parse_lines(lines, nr, st) == parse_lines(lines.drop_first(), nr + 1, st2));
    }
}

/// The record with one queue extended at its bottom end.
pub open spec fn add_ids(b: BranchView, mk: char, ids: Seq<Seq<char>>) -> BranchView {
    if mk == '#' {
        BranchView { hidden: b.hidden + ids, ..b }
    } else if mk == '-' {
        BranchView { popped: b.popped + ids, ..b }
    } else {
        BranchView { pushed: b.pushed + ids, ..b }
    }
}

/// Reading the serialized lines of a queue appends exactly its
/// identifiers, in order, to the open record's queue.
proof fn lemma_parse_queue_text(
    mk: char,
    ids: Seq<Seq<char>>,
    rest: Seq<char>,
    nr: int,
    st: ParseState,
)
    requires
        mk == '#' || mk == '-' || mk == '+',
        forall|i: int| 0 <= i < ids.len() ==> crate::text::is_canonical_id(#[trigger] ids[i]),
        st.cur is Some,
    ensures
        parse_lines(lines_of(queue_text(mk, ids) + rest), nr, st) == parse_lines(
            lines_of(rest),
            nr + ids.len(),
            ParseState { cur: Some(add_ids(st.cur.unwrap(), mk, ids)), ..st },
        ),
    decreases ids.len(),
{
    let b = st.cur.unwrap();
    if ids.len() == 0 {
        assert(queue_text(mk, ids) + rest =~= rest);
        assert(add_ids(b, mk, ids) =~= b);
        assert(ParseState { cur: Some(add_ids(b, mk, ids)), ..st } =~= st);
    } else {
        let x = ids[0];
        let ids2 = ids.drop_first();
        crate::text::lemma_canonical_fixed(x);
        let body = seq![mk] + x;
        let r1 = queue_text(mk, ids2) + rest;
        assert(queue_text(mk, ids) + rest =~= body + seq!['\n'] + r1);
        assert(crate::text::no_nl(body)) by {
            assert forall|i: int| 0 <= i < body.len() implies body[i] != '\n' by {
                if i >= 1 {
                    assert(body[i] == x[i - 1]);
                }
            }
        }
        crate::text::lemma_lines_cons(body, r1);
        let lines = lines_of(queue_text(mk, ids) + rest);
        assert(lines == seq![body] + lines_of(r1));
        assert(lines[0] == body);
        assert(lines.drop_first() =~= lines_of(r1));
        lemma_classify_patch(mk, x);
        let b2 = if mk == '#' {
            BranchView { hidden: b.hidden + seq![x], ..b }
        } else if mk == '-' {
            BranchView { popped: b.popped + seq![x], ..b }
        } else {
            BranchView { pushed: b.pushed + seq![x], ..b }
        };
        let st2 = ParseState { cur: Some(b2), ..st };
        assert(parse_lines(lines, nr, st) == parse_lines(lines.drop_first(), nr + 1, st2));
        assert forall|i: int| 0 <= i < ids2.len() implies crate::text::is_canonical_id(
            #[trigger] ids2[i],
        ) by {
            assert(ids2[i] == ids[i + 1]);
        }
        lemma_parse_queue_text(mk, ids2, rest, nr + 1, st2);
        assert(ParseState { cur: Some(add_ids(b2, mk, ids2)), ..st2 } =~= ParseState {
            cur: Some(add_ids(b, mk, ids)),
            ..st
        }) by {
            if mk == '#' {
                assert((b.hidden + seq![x]) + ids2 =~= b.hidden + ids);
                assert(add_ids(b2, mk, ids2) =~= add_ids(b, mk, ids));
            } else if mk == '-' {
                assert((b.popped + seq![x]) + ids2 =~= b.popped + ids);
                assert(add_ids(b2, mk, ids2) =~= add_ids(b, mk, ids));
            } else {
                assert((b.pushed + seq![x]) + ids2 =~= b.pushed + ids);
                assert(add_ids(b2, mk, ids2) =~= add_ids(b, mk, ids));
            }
        }
    }
}

/// How many lines one branch section serializes to.
pub open spec fn section_count(b: BranchView) -> int {
    2 + b.props.len() as int + b.hidden.len() as int + b.popped.len() as int + b.pushed.len() as int
}

/// Reading one serialized branch section closes the open section and
/// opens one holding exactly the serialized record.
proof fn lemma_parse_section_text(b: BranchView, rest: Seq<char>, nr: int, st: ParseState)
    requires
        wf_record(b),
        !bviews_has(parse_commit(st), b.name),
    ensures
        parse_lines(lines_of(branch_text(b) + rest), nr, st) == parse_lines(
            lines_of(rest),
            nr + section_count(b),
            ParseState { props: st.props, branches: parse_commit(st), cur: Some(b) },
        ),
{
    let header = seq!['@'] + b.name;
    let r2 = props_text(b.props) + (queue_text('#', b.hidden) + (queue_text('-', b.popped) + (
    queue_text('+', b.pushed) + rest)));
    assert(branch_text(b) + rest =~= Seq::<char>::empty() + seq!['\n'] + (header + seq!['\n']
        + r2));
    crate::text::lemma_lines_cons(Seq::<char>::empty(), header + seq!['\n'] + r2);
    let lines = lines_of(branch_text(b) + rest);
    assert(lines == seq![Seq::<char>::empty()] + lines_of(header + seq!['\n'] + r2));
    lemma_classify_empty();
    assert(lines[0] == Seq::<char>::empty());
    assert(lines.drop_first() =~= lines_of(header + seq!['\n'] + r2));
    assert(parse_lines(lines, nr, st) == parse_lines(lines.drop_first(), nr + 1, st));

    assert(crate::text::no_nl(header)) by {
        assert forall|i: int| 0 <= i < header.len() implies header[i] != '\n' by {
            if i >= 1 {
                assert(header[i] == b.name[i - 1]);
            }
        }
    }
    crate::text::lemma_lines_cons(header, r2);
    let lines2 = lines_of(header + seq!['\n'] + r2);
    assert(lines2 == seq![header] + lines_of(r2));
    lemma_classify_branch(b.name);
    assert(lines2[0] == header);
    assert(lines2.drop_first() =~= lines_of(r2));
    let st2 = ParseState {
        props: st.props,
        branches: parse_commit(st),
        cur: Some(crate::meta::empty_branch_view(b.name)),
    };
    assert(parse_lines(lines2, nr + 1, st) == parse_lines(lines_of(r2), nr + 2, st2));

    assert(scope_of(st2) =~= Seq::<(Seq<char>, Option<Seq<char>>)>::empty());
    lemma_parse_props_text(
        b.props,
        queue_text('#', b.hidden) + (queue_text('-', b.popped) + (queue_text('+', b.pushed)
            + rest)),
        nr + 2,
        st2,
    );
    let st3 = scope_plus(st2, b.props);
    assert(st3.cur matches Some(b3) && b3.props =~= b.props && b3.name == b.name
        && b3.hidden =~= Seq::<Seq<char>>::empty() && b3.popped =~= Seq::<Seq<char>>::empty()
        && b3.pushed =~= Seq::<Seq<char>>::empty());

    lemma_parse_queue_text(
        '#',
        b.hidden,
        queue_text('-', b.popped) + (queue_text('+', b.pushed) + rest),
        nr + 2 + b.props.len(),
        st3,
    );
    let st4 = ParseState { cur: Some(add_ids(st3.cur.unwrap(), '#', b.hidden)), ..st3 };
    assert(st4.cur.unwrap().hidden =~= b.hidden);

    lemma_parse_queue_text(
        '-',
        b.popped,
        queue_text('+', b.pushed) + rest,
        nr + 2 + b.props.len() + b.hidden.len(),
        st4,
    );
    let st5 = ParseState { cur: Some(add_ids(st4.cur.unwrap(), '-', b.popped)), ..st4 };
    assert(st5.cur.unwrap().popped =~= b.popped);

    lemma_parse_queue_text(
        '+',
        b.pushed,
        rest,
        nr + 2 + b.props.len() + b.hidden.len() + b.popped.len(),
        st5,
    );
    let st6 = ParseState { cur: Some(add_ids(st5.cur.unwrap(), '+', b.pushed)), ..st5 };
    assert(st6 =~= ParseState { props: st.props, branches: parse_commit(st), cur: Some(b) }) by {
        assert(st6.cur.unwrap() =~= b);
    }
}


/// How many lines a run of branch sections serializes to.
pub open spec fn sections_count(bs: Seq<BranchView>) -> int
    decreases bs.len(),
{
    if bs.len() == 0 {
        0
    } else {
        section_count(bs[0]) + sections_count(bs.drop_first())
    }
}

/// The parser state after reading a run of branch sections: the last
/// one is still open, the others are committed in order.
pub open spec fn after_sections(st: ParseState, bs: Seq<BranchView>) -> ParseState {
    if bs.len() == 0 {
        st
    } else {
        ParseState {
            props: st.props,
            branches: parse_commit(st) + bs.drop_last(),
            cur: Some(bs.last()),
        }
    }
}

/// Reading serialized branch sections commits exactly the serialized
/// records, in order.
proof fn lemma_parse_branches_text(bs: Seq<BranchView>, rest: Seq<char>, nr: int, st: ParseState)
    requires
        crate::meta::branches::bviews_sorted(bs),
        forall|i: int| 0 <= i < bs.len() ==> wf_record(#[trigger] bs[i]),
        forall|j: int, i: int|
            0 <= j < parse_commit(st).len() && 0 <= i < bs.len() ==> crate::text::lex_lt(
                parse_commit(st)[j].name,
                bs[i].name,
            ),
    ensures
        parse_lines(lines_of(branches_text(bs) + rest), nr, st) == parse_lines(
            lines_of(rest),
            nr + sections_count(bs),
            after_sections(st, bs),
        ),
        parse_commit(after_sections(st, bs)) == parse_commit(st) + bs,
    decreases bs.len(),
{
    let c0 = parse_commit(st);
    if bs.len() == 0 {
        assert(branches_text(bs) + rest =~= rest);
        assert(c0 + bs =~= c0);
    } else {
        let b0 = bs[0];
        let bs2 = bs.drop_first();
        assert(branches_text(bs) + rest =~= branch_text(b0) + (branches_text(bs2) + rest));
        assert(!bviews_has(c0, b0.name)) by {
            if bviews_has(c0, b0.name) {
                let w = choose|j: int| 0 <= j < c0.len() && c0[j].name == b0.name;
                crate::text::lemma_lex_lt_asymmetric(c0[w].name, b0.name);
            }
        }
        lemma_parse_section_text(b0, branches_text(bs2) + rest, nr, st);
        let st1 = ParseState { props: st.props, branches: c0, cur: Some(b0) };
        assert forall|j: int| 0 <= j < c0.len() implies crate::text::lex_lt(
            #[trigger] c0[j].name,
            b0.name,
        ) by {}
        crate::meta::branches::lemma_bviews_insert_end(c0, b0);
        assert(parse_commit(st1) == c0.push(b0));
        assert forall|i: int| 0 <= i < bs2.len() implies wf_record(#[trigger] bs2[i]) by {
            assert(bs2[i] == bs[i + 1]);
        }
        assert forall|i: int, j: int| 0 <= i < j < bs2.len() implies crate::text::lex_lt(
            bs2[i].name,
            bs2[j].name,
        ) by {
            assert(bs2[i] == bs[i + 1]);
            assert(bs2[j] == bs[j + 1]);
        }
        assert forall|j: int, i: int|
            0 <= j < parse_commit(st1).len() && 0 <= i < bs2.len() implies crate::text::lex_lt(
            parse_commit(st1)[j].name,
            bs2[i].name,
        ) by {
            assert(bs2[i] == bs[i + 1]);
            if j < c0.len() {
                assert(parse_commit(st1)[j] == c0[j]);
            } else {
                assert(parse_commit(st1)[j] == b0);
                assert(crate::text::lex_lt(bs[0].name, bs[i + 1].name));
            }
        }
        lemma_parse_branches_text(bs2, rest, nr + section_count(b0), st1);
        assert(after_sections(st1, bs2) =~= after_sections(st, bs)) by {
            if bs2.len() == 0 {
                assert(bs.drop_last() =~= Seq::<BranchView>::empty());
                assert(c0 + bs.drop_last() =~= c0);
                assert(bs.last() == b0);
            } else {
                assert(c0.push(b0) + bs2.drop_last() =~= c0 + bs.drop_last());
                assert(bs2.last() == bs.last());
            }
        }
        assert(parse_commit(after_sections(st, bs)) =~= c0 + bs) by {
            let dl = bs.drop_last();
            assert forall|j: int| 0 <= j < (c0 + dl).len() implies crate::text::lex_lt(
                #[trigger] (c0 + dl)[j].name,
                bs.last().name,
            ) by {
                if j < c0.len() {
                    assert((c0 + dl)[j] == c0[j]);
                } else {
                    assert((c0 + dl)[j] == bs[j - c0.len()]);
                    assert(crate::text::lex_lt(bs[j - c0.len()].name, bs.last().name));
                }
            }
            crate::meta::branches::lemma_bviews_insert_end(c0 + dl, bs.last());
            assert((c0 + dl).push(bs.last()) =~= c0 + bs);
        }
    }
}

/// Law: the serializer and the parser are inverse. A snapshot in
/// canonical form (sorted scopes with readable names and values,
/// sorted non-empty branch records, canonical identifiers) reads back
/// from its own body text as exactly the same snapshot. Hence
/// serializing what a well-formed body parses to yields a semantically
/// equivalent body: the same properties, branches and queue contents
/// in canonical formatting, as `Metadata::parse` canonicalizes
/// everything it reads.
pub proof fn lemma_parse_round_trip(m: MetaView)
    requires
        serializable(m),
    ensures
        parse_lines(lines_of(meta_text(m)), 0, parse_init()) == (ParseOutcome::Parsed {
            meta: MetaView { props: m.props, branches: m.branches, source: None },
        }),
{
    let init = parse_init();
    assert(meta_text(m) == props_text(m.props) + branches_text(m.branches));
    assert(scope_of(init) =~= Seq::<(Seq<char>, Option<Seq<char>>)>::empty());
    lemma_parse_props_text(m.props, branches_text(m.branches), 0, init);
    let st1 = scope_plus(init, m.props);
    assert(st1.props =~= m.props);
    assert(st1.cur is None);
    assert(st1.branches =~= Seq::<BranchView>::empty());
    assert(parse_commit(st1) =~= Seq::<BranchView>::empty());

    assert(branches_text(m.branches) =~= branches_text(m.branches) + Seq::<char>::empty());
    lemma_parse_branches_text(m.branches, Seq::<char>::empty(), m.props.len() as int, st1);
    let st2 = after_sections(st1, m.branches);
    assert(parse_commit(st2) == parse_commit(st1) + m.branches);
    assert(parse_commit(st2) =~= m.branches);
    assert(st2.props =~= m.props);

    // the trailing newline of the last line reads as one final blank
    let e = Seq::<char>::empty();
    crate::text::lemma_first_nl(e);
    assert(lines_of(e) == seq![e]);
    lemma_classify_empty();
    let k = m.props.len() + sections_count(m.branches);
    assert(seq![e].drop_first() =~= Seq::<Seq<char>>::empty());
    assert(parse_lines(seq![e], k, st2) == parse_lines(Seq::<Seq<char>>::empty(), k + 1, st2));
    assert(parse_lines(Seq::<Seq<char>>::empty(), k + 1, st2) == (ParseOutcome::Parsed {
        meta: MetaView { props: st2.props, branches: parse_commit(st2), source: None },
    }));
    assert(MetaView { props: st2.props, branches: parse_commit(st2), source: None } =~= MetaView {
        props: m.props,
        branches: m.branches,
        source: None,
    });
}


/// Whatever a line free of newlines reads as carries readable names
/// and values: trimming and splitting leave clean edges.
proof fn lemma_classify_wf(l: Seq<char>)
    requires
        crate::text::no_nl(l),
    ensures
        classify(l) matches LineV::Flag(k) ==> wf_flag_name(k),
        classify(l) matches LineV::Value(k, v) ==> wf_value_name(k) && wf_prop_value(v),
        classify(l) matches LineV::Branch(n) ==> wf_branch_name(n),
{
    crate::text::lemma_trimmed_wf(l);
    let t = trimmed(l);
    if t.len() > 0 {
        let rest = t.skip(1);
        assert(crate::text::no_nl(rest)) by {
            assert forall|i: int| 0 <= i < rest.len() implies rest[i] != '\n' by {
                assert(rest[i] == t[i + 1]);
            }
        }
        if rest.len() > 0 {
            assert(rest.last() == t.last());
        }
        if t[0] == '%' {
            crate::text::lemma_first_space(rest);
            let i = first_space(rest);
            if i == rest.len() {
                assert(wf_flag_name(rest));
            } else {
                // the name region sits before the first space
                let nr = rest.take(i);
                assert(crate::text::no_nl(nr) && forall|j: int|
                    0 <= j < nr.len() ==> nr[j] != ' ') by {
                    assert forall|j: int| 0 <= j < nr.len() implies nr[j] != '\n' && nr[j]
                        != ' ' by {
                        assert(nr[j] == rest[j]);
                    }
                }
                crate::text::lemma_trimmed_wf(nr);
                // the value region is non-empty and ends cleanly: the
                // trimmed line cannot end in the splitting space
                assert(i < rest.len() - 1) by {
                    assert(rest[i] == ' ');
                    assert(!crate::text::is_space(rest.last()));
                }
                let vr = rest.skip(i + 1);
                assert(crate::text::no_nl(vr)) by {
                    assert forall|j: int| 0 <= j < vr.len() implies vr[j] != '\n' by {
                        assert(vr[j] == rest[i + 1 + j]);
                    }
                }
                assert(vr.len() > 0);
                assert(vr.last() == rest.last());
                crate::text::lemma_trimmed_wf(vr);
                // trimming keeps the clean last character, so the value
                // is non-empty
                crate::text::lemma_trimmed_front_rep(vr);
                let f = crate::text::trimmed_front(vr);
                assert(f.len() > 0) by {
                    if crate::text::lead_spaces(vr) == vr.len() {
                        assert(crate::text::is_space(vr[vr.len() - 1]));
                    }
                }
                assert(f.last() == vr.last());
                crate::text::lemma_trimmed_back_rep(f);
                assert(crate::text::trail_spaces(f) == 0);
                assert(trimmed(vr) == f.take(f.len() as int));
                assert(f.take(f.len() as int) =~= f);
                assert(trimmed(vr).len() > 0);
            }
        }
    }
}

/// A branch record in readable form, whether or not it is empty.
pub open spec fn wf_record_open(b: BranchView) -> bool {
    &&& wf_branch_name(b.name)
    &&& wf_pairs(b.props)
    &&& forall|i: int|
        0 <= i < b.hidden.len() ==> crate::text::is_canonical_id(#[trigger] b.hidden[i])
    &&& forall|i: int|
        0 <= i < b.popped.len() ==> crate::text::is_canonical_id(#[trigger] b.popped[i])
    &&& forall|i: int|
        0 <= i < b.pushed.len() ==> crate::text::is_canonical_id(#[trigger] b.pushed[i])
}

/// A parser state whose accumulated pieces are all in readable form.
pub open spec fn wf_state(st: ParseState) -> bool {
    &&& wf_pairs(st.props)
    &&& crate::meta::branches::bviews_sorted(st.branches)
    &&& forall|i: int| 0 <= i < st.branches.len() ==> wf_record_open(#[trigger] st.branches[i])
    &&& match st.cur {
        Some(b) => wf_record_open(b),
        None => true,
    }
}

proof fn lemma_parse_commit_wf(st: ParseState)
    requires
        wf_state(st),
    ensures
        crate::meta::branches::bviews_sorted(parse_commit(st)),
        forall|i: int|
            0 <= i < parse_commit(st).len() ==> wf_record_open(#[trigger] parse_commit(st)[i]),
{
    match st.cur {
        Some(b) => {
            crate::meta::branches::lemma_bviews_insert_sorted(st.branches, b);
            assert forall|i: int| 0 <= i < parse_commit(st).len() implies wf_record_open(
                #[trigger] parse_commit(st)[i],
            ) by {
                if parse_commit(st)[i] != b {
                    assert(st.branches.contains(parse_commit(st)[i]));
                    let w = choose|w: int|
                        0 <= w < st.branches.len() && st.branches[w] == parse_commit(st)[i];
                    assert(wf_record_open(st.branches[w]));
                }
            }
        },
        None => {},
    }
}

/// Whatever the parser accepts, it accumulated in readable, sorted,
/// canonical form.
proof fn lemma_parse_lines_wf(lines: Seq<Seq<char>>, nr: int, st: ParseState)
    requires
        forall|k: int| 0 <= k < lines.len() ==> crate::text::no_nl(#[trigger] lines[k]),
        wf_state(st),
    ensures
        parse_lines(lines, nr, st) matches ParseOutcome::Parsed { meta } ==> {
            &&& meta.source is None
            &&& wf_pairs(meta.props)
            &&& crate::meta::branches::bviews_sorted(meta.branches)
            &&& forall|i: int|
                0 <= i < meta.branches.len() ==> wf_record_open(#[trigger] meta.branches[i])
        },
    decreases lines.len(),
{
    if lines.len() == 0 {
        lemma_parse_commit_wf(st);
    } else {
        let rest = lines.drop_first();
        assert forall|k: int| 0 <= k < rest.len() implies crate::text::no_nl(
            #[trigger] rest[k],
        ) by {
            assert(rest[k] == lines[k + 1]);
        }
        lemma_classify_wf(lines[0]);
        match classify(lines[0]) {
            LineV::Empty => {
                lemma_parse_lines_wf(rest, nr + 1, st);
            },
            LineV::Flag(name) => {
                if !pairs_has(scope_of(st), name) {
                    let st2 = set_scope(st, name, None);
                    assert(wf_state(st2)) by {
                        crate::meta::properties::lemma_pairs_insert_sorted(
                            scope_of(st),
                            name,
                            None,
                        );
                        let r = pairs_insert(scope_of(st), name, None);
                        assert forall|i: int| 0 <= i < r.len() implies match (
                        #[trigger] r[i]).1 {
                            Some(v) => wf_value_name(r[i].0) && wf_prop_value(v),
                            None => wf_flag_name(r[i].0),
                        } by {
                            if r[i] != (name, None::<Seq<char>>) {
                                assert(scope_of(st).contains(r[i]));
                                let w = choose|w: int|
                                    0 <= w < scope_of(st).len() && scope_of(st)[w] == r[i];
                            }
                        }
                    }
                    lemma_parse_lines_wf(rest, nr + 1, st2);
                }
            },
            LineV::Value(name, value) => {
                if !pairs_has(scope_of(st), name) {
                    let st2 = set_scope(st, name, Some(value));
                    assert(wf_state(st2)) by {
                        crate::meta::properties::lemma_pairs_insert_sorted(
                            scope_of(st),
                            name,
                            Some(value),
                        );
                        let r = pairs_insert(scope_of(st), name, Some(value));
                        assert forall|i: int| 0 <= i < r.len() implies match (
                        #[trigger] r[i]).1 {
                            Some(v) => wf_value_name(r[i].0) && wf_prop_value(v),
                            None => wf_flag_name(r[i].0),
                        } by {
                            if r[i] != (name, Some(value)) {
                                assert(scope_of(st).contains(r[i]));
                                let w = choose|w: int|
                                    0 <= w < scope_of(st).len() && scope_of(st)[w] == r[i];
                            }
                        }
                    }
                    lemma_parse_lines_wf(rest, nr + 1, st2);
                }
            },
            LineV::Branch(name) => {
                let committed = parse_commit(st);
                if !bviews_has(committed, name) {
                    lemma_parse_commit_wf(st);
                    let st2 = ParseState {
                        props: st.props,
                        branches: committed,
                        cur: Some(crate::meta::empty_branch_view(name)),
                    };
                    assert(wf_state(st2)) by {
                        let e = crate::meta::empty_branch_view(name);
                        assert(wf_pairs(e.props));
                    }
                    lemma_parse_lines_wf(rest, nr + 1, st2);
                }
            },
            LineV::Hidden(id) => {
                match st.cur {
                    None => {},
                    Some(b) => {
                        if valid_id_text(id) {
                            crate::text::lemma_canonical_id_canonical(id);
                            let b2 = BranchView {
                                hidden: b.hidden + seq![canonical_id(id)],
                                ..b
                            };
                            assert(wf_record_open(b2)) by {
                                assert forall|i: int|
                                    0 <= i < b2.hidden.len() implies crate::text::is_canonical_id(
                                    #[trigger] b2.hidden[i],
                                ) by {
                                    if i < b.hidden.len() {
                                        assert(b2.hidden[i] == b.hidden[i]);
                                    }
                                }
                            }
                            lemma_parse_lines_wf(rest, nr + 1, ParseState { cur: Some(b2), ..st });
                        }
                    },
                }
            },
            LineV::Popped(id) => {
                match st.cur {
                    None => {},
                    Some(b) => {
                        if valid_id_text(id) {
                            crate::text::lemma_canonical_id_canonical(id);
                            let b2 = BranchView {
                                popped: b.popped + seq![canonical_id(id)],
                                ..b
                            };
                            assert(wf_record_open(b2)) by {
                                assert forall|i: int|
                                    0 <= i < b2.popped.len() implies crate::text::is_canonical_id(
                                    #[trigger] b2.popped[i],
                                ) by {
                                    if i < b.popped.len() {
                                        assert(b2.popped[i] == b.popped[i]);
                                    }
                                }
                            }
                            lemma_parse_lines_wf(rest, nr + 1, ParseState { cur: Some(b2), ..st });
                        }
                    },
                }
            },
            LineV::Pushed(id) => {
                match st.cur {
                    None => {},
                    Some(b) => {
                        if valid_id_text(id) {
                            crate::text::lemma_canonical_id_canonical(id);
                            let b2 = BranchView {
                                pushed: b.pushed + seq![canonical_id(id)],
                                ..b
                            };
                            assert(wf_record_open(b2)) by {
                                assert forall|i: int|
                                    0 <= i < b2.pushed.len() implies crate::text::is_canonical_id(
                                    #[trigger] b2.pushed[i],
                                ) by {
                                    if i < b.pushed.len() {
                                        assert(b2.pushed[i] == b.pushed[i]);
                                    }
                                }
                            }
                            lemma_parse_lines_wf(rest, nr + 1, ParseState { cur: Some(b2), ..st });
                        }
                    },
                }
            },
            LineV::Invalid(_) => {},
        }
    }
}

/// Law: writing out what a body parses to is semantically faithful.
/// Whenever a body reads as a snapshot whose branch records all still
/// hold something, that snapshot is in canonical readable form, so its
/// own serialized body reads back as exactly the same snapshot: the
/// serialization of a parsed body keeps every property, branch and
/// queue, only canonicalized in formatting. (A section that parsed to
/// an empty record is the one thing serialization drops.)
pub proof fn lemma_serialize_after_parse(text: Seq<char>, meta: MetaView)
    requires
        parse_lines(lines_of(text), 0, parse_init()) == (ParseOutcome::Parsed { meta }),
        forall|i: int| 0 <= i < meta.branches.len() ==> !branch_is_empty(#[trigger] meta.branches[i]),
    ensures
        serializable(meta),
        parse_lines(lines_of(meta_text(meta)), 0, parse_init()) == (ParseOutcome::Parsed { meta }),
{
    crate::text::lemma_lines_no_nl(text);
    assert(wf_state(parse_init())) by {
        assert(wf_pairs(parse_init().props));
    }
    lemma_parse_lines_wf(lines_of(text), 0, parse_init());
    assert forall|i: int| 0 <= i < meta.branches.len() implies wf_record(
        #[trigger] meta.branches[i],
    ) by {
        assert(wf_record_open(meta.branches[i]));
    }
    lemma_parse_round_trip(meta);
    assert(MetaView { props: meta.props, branches: meta.branches, source: None } =~= meta);
}

} // verus!
