//! The model's answer, read as plans: split into plans, each plan read line
//! by line into four selections and a description, then checked against the
//! catalogue and the map.
use vstd::prelude::*;
use crate::checker::{lookup, Entry, ResourceDb};
use crate::text::{
    is_space, lemma_split_append_plain, lemma_decimal_digits, lemma_parse_decimal, is_digit, lemma_trim_end_prefix, append_chars, matches_at, copy_range, find, find_char_v, find_v, lemma_find, from_chars, parse_u32,
    parse_u32_v, split, split_v, starts_with, starts_with_v, trim, trim_end, trim_end_v,
    trim_start, trim_start_str, trim_start_str_v, trim_start_v, trim_v, trimmed_lines,
    trimmed_lines_v, views, to_chars, matches_at_v, decimal, decimal_v, CharSet, Class,
};

verus! {

// ------------------------------------------------------------------ types

#[derive(Clone, Debug)]
pub struct Selection {
    pub point: u32,
    pub character: String,
    pub talents: Vec<String>,
}

#[derive(Clone, Debug)]
pub struct Plan {
    pub index: usize,
    pub selections: Vec<Selection>,
    pub description: String,
}

#[derive(Debug)]
pub enum ParseError {
    NotEnoughPlans,
    InvalidCharacter(String),
    InvalidTalent(String),
    WrongTalentCount(String, usize),
    PointOutOfRange(u32, u32),
    DuplicatePoint(u32),
    WrongCharacterCount(usize),
    NoValidPlans,
}

pub struct SelectionView {
    pub point: u32,
    pub character: Seq<char>,
    pub talents: Seq<Seq<char>>,
}

pub struct PlanView {
    pub index: usize,
    pub selections: Seq<SelectionView>,
    pub description: Seq<char>,
}

pub enum ParseErrorView {
    NotEnoughPlans,
    InvalidCharacter(Seq<char>),
    InvalidTalent(Seq<char>),
    WrongTalentCount(Seq<char>, usize),
    PointOutOfRange(u32, u32),
    DuplicatePoint(u32),
    WrongCharacterCount(usize),
    NoValidPlans,
}

pub open spec fn string_views(v: Seq<String>) -> Seq<Seq<char>> {
    v.map_values(|s: String| s@)
}

impl View for Selection {
    type V = SelectionView;

    open spec fn view(&self) -> SelectionView {
        SelectionView {
            point: self.point,
            character: self.character@,
            talents: string_views(self.talents@),
        }
    }
}

pub open spec fn selection_views(v: Seq<Selection>) -> Seq<SelectionView> {
    v.map_values(|s: Selection| s@)
}

impl View for Plan {
    type V = PlanView;

    open spec fn view(&self) -> PlanView {
        PlanView {
            index: self.index,
            selections: selection_views(self.selections@),
            description: self.description@,
        }
    }
}

pub open spec fn plan_views(v: Seq<Plan>) -> Seq<PlanView> {
    v.map_values(|p: Plan| p@)
}

impl View for ParseError {
    type V = ParseErrorView;

    open spec fn view(&self) -> ParseErrorView {
        match self {
            ParseError::NotEnoughPlans => ParseErrorView::NotEnoughPlans,
            ParseError::InvalidCharacter(n) => ParseErrorView::InvalidCharacter(n@),
            ParseError::InvalidTalent(n) => ParseErrorView::InvalidTalent(n@),
            ParseError::WrongTalentCount(c, n) => ParseErrorView::WrongTalentCount(c@, *n),
            ParseError::PointOutOfRange(p, m) => ParseErrorView::PointOutOfRange(*p, *m),
            ParseError::DuplicatePoint(p) => ParseErrorView::DuplicatePoint(*p),
            ParseError::WrongCharacterCount(n) => ParseErrorView::WrongCharacterCount(*n),
            ParseError::NoValidPlans => ParseErrorView::NoValidPlans,
        }
    }
}

// --------------------------------------------------------------- patterns

/// "方案": the word that opens a plan.
pub open spec fn plan_word() -> Seq<char> {
    seq!['方', '案']
}

/// "号选点": the words after a point's number.
pub open spec fn point_word() -> Seq<char> {
    seq!['号', '选', '点']
}

/// "放置": "place", which may stand before a character's name.
pub open spec fn place_word() -> Seq<char> {
    seq!['放', '置']
}

/// The three openings of a description line: "具体描述", "描述及分析", "描述".
pub open spec fn opens_description(l: Seq<char>) -> bool {
    ||| starts_with(l, seq!['具', '体', '描', '述'])
    ||| starts_with(l, seq!['描', '述', '及', '分', '析'])
    ||| starts_with(l, seq!['描', '述'])
}

/// The four talents a survivor may take.
pub open spec fn valid_talents() -> Seq<Seq<char>> {
    seq![
        seq!['回', '光', '返', '照'],
        seq!['飞', '轮', '效', '应'],
        seq!['膝', '跳', '反', '射'],
        seq!['化', '险', '为', '夷'],
    ]
}

pub open spec fn is_valid_talent(t: Seq<char>) -> bool {
    valid_talents().contains(t)
}

/// What separates the talents of a selection line.
pub open spec fn talent_separators() -> Class {
    Class::AnyOf(seq!['、', ',', '，', '/', ' '])
}

/// The marks that end a sentence.
pub open spec fn sentence_endings() -> Class {
    Class::AnyOf(seq!['。', '！', '？', '；', '.', '!', '?', ';'])
}

/// The longest description, in characters, that is kept whole.
pub open spec fn description_limit() -> nat {
    100
}

// ------------------------------------------------------- splitting plans

/// A line that opens a plan: it starts with "方案". Every such line
/// separates the plans.
pub open spec fn is_plan_header(line: Seq<char>) -> bool {
    starts_with(line, plan_word())
}

pub struct SplitState {
    pub plans: Seq<Seq<char>>,
    pub current: Seq<char>,
    pub in_plan: bool,
}

pub open spec fn split_step(st: SplitState, line: Seq<char>) -> SplitState {
    if is_plan_header(line) {
        let closed = st.in_plan && st.current.len() > 0;
        let plans = if closed {
            st.plans.push(trim(st.current))
        } else {
            st.plans
        };
        let current = if closed {
            Seq::<char>::empty()
        } else {
            st.current
        };
        SplitState { plans, current: current + line + seq!['\n'], in_plan: true }
    } else if st.in_plan {
        SplitState { current: st.current + line + seq!['\n'], ..st }
    } else {
        st
    }
}

pub open spec fn split_fold(ls: Seq<Seq<char>>) -> SplitState
    decreases ls.len(),
{
    if ls.len() == 0 {
        SplitState { plans: Seq::empty(), current: Seq::empty(), in_plan: false }
    } else {
        split_step(split_fold(ls.drop_last()), ls.last())
    }
}

/// The texts of the plans in a raw answer: each runs from a plan header up
/// to the next one, its lines trimmed; what precedes the first header is
/// dropped.
pub open spec fn split_plans(raw: Seq<char>) -> Seq<Seq<char>> {
    let st = split_fold(trimmed_lines(raw));
    if st.in_plan && trim(st.current).len() > 0 {
        st.plans.push(trim(st.current))
    } else {
        st.plans
    }
}

// ------------------------------------------------------ selection lines

/// How many bytes UTF-8 takes for a character.
pub open spec fn utf8_len(c: char) -> int {
    if (c as int) < 0x80 {
        1
    } else if (c as int) < 0x800 {
        2
    } else if (c as int) < 0x10000 {
        3
    } else {
        4
    }
}

/// Where the talents start when the name ends at an ASCII colon at `c`: the
/// reading skips the three bytes that a full-width colon takes, so from the
/// colon on it steps over three bytes; `None` where those three bytes do not
/// end on a character boundary inside the line (the reading then panics).
pub open spec fn ascii_colon_skip(rest: Seq<char>, c: int) -> Option<int> {
    if c + 1 >= rest.len() {
        None
    } else if utf8_len(rest[c + 1]) == 2 {
        Some(c + 2)
    } else if utf8_len(rest[c + 1]) == 1 && c + 2 < rest.len() && utf8_len(rest[c + 2]) == 1 {
        Some(c + 3)
    } else {
        None
    }
}

/// The non-empty pieces, in order.
pub open spec fn keep_nonempty(p: Seq<Seq<char>>) -> Seq<Seq<char>>
    decreases p.len(),
{
    if p.len() == 0 {
        p
    } else if p.last().len() > 0 {
        keep_nonempty(p.drop_last()).push(p.last())
    } else {
        keep_nonempty(p.drop_last())
    }
}

/// The talents listed in `s`.
pub open spec fn talent_list(s: Seq<char>) -> Seq<Seq<char>> {
    keep_nonempty(split(s, talent_separators()).map_values(|t: Seq<char>| trim(t)))
}

pub open spec fn selection_at(point: u32, rest: Seq<char>, c: int, t: int) -> SelectionView {
    SelectionView {
        point,
        character: trim(rest.take(c)),
        talents: talent_list(trim(rest.skip(t))),
    }
}

/// What one line of a plan says.
pub enum LineReading {
    /// No selection.
    Nothing,
    /// A selection.
    Sel(SelectionView),
    /// A line whose reading panics (see `ascii_colon_skip`).
    Broken,
}

/// The reading of a selection line "N 号选点：<name>：<talent>、<talent>".
pub open spec fn selection_line(line: Seq<char>) -> LineReading {
    let l1 = trim(line);
    let l2 = trim_end(trim_end(l1, Class::AnyOf(seq!['。'])), Class::AnyOf(seq!['.']));
    match find(l2, point_word()) {
        None => LineReading::Nothing,
        Some(pe) => match parse_u32(trim(l2.take(pe))) {
            None => LineReading::Nothing,
            Some(point) => {
                let r1 = l2.skip(pe + 3);
                let r2 = trim(trim_start(r1, Class::AnyOf(seq!['：', ':', ' '])));
                let rest = trim(trim_start_str(r2, place_word()));
                match find(rest, seq!['：']) {
                    Some(c) => LineReading::Sel(selection_at(point, rest, c, c + 1)),
                    None => match find(rest, seq![':']) {
                        None => LineReading::Nothing,
                        Some(c) => match ascii_colon_skip(rest, c) {
                            None => LineReading::Broken,
                            Some(t) => LineReading::Sel(selection_at(point, rest, c, t)),
                        },
                    },
                }
            },
        },
    }
}

// ------------------------------------------------------- reading one plan

pub struct PlanState {
    pub sels: Seq<SelectionView>,
    pub desc: Seq<char>,
    pub desc_found: bool,
    pub broken: bool,
}

/// The description text after the opening of a description line.
pub open spec fn description_of(line: Seq<char>) -> Seq<char> {
    match find(line, seq!['：']) {
        Some(p) => trim(line.skip(p + 1)),
        None => line,
    }
}

pub open spec fn plan_step(st: PlanState, line: Seq<char>) -> PlanState {
    if st.broken || line.len() == 0 || starts_with(line, plan_word()) {
        st
    } else if opens_description(line) {
        PlanState { desc: description_of(line), desc_found: true, ..st }
    } else if st.desc_found {
        let d = if st.desc.len() > 0 {
            st.desc.push('\n')
        } else {
            st.desc
        };
        PlanState { desc: d + line, ..st }
    } else {
        match selection_line(line) {
            LineReading::Nothing => st,
            LineReading::Sel(s) => PlanState { sels: st.sels.push(s), ..st },
            LineReading::Broken => PlanState { broken: true, ..st },
        }
    }
}

pub open spec fn plan_fold(ls: Seq<Seq<char>>) -> PlanState
    decreases ls.len(),
{
    if ls.len() == 0 {
        PlanState { sels: Seq::empty(), desc: Seq::empty(), desc_found: false, broken: false }
    } else {
        plan_step(plan_fold(ls.drop_last()), ls.last())
    }
}

/// The first check that selection `i` fails, in the order: the character
/// exists, it has two talents, both are valid, the point lies in
/// `1..=max_point`, no earlier selection took the point.
pub open spec fn selection_error(
    sels: Seq<SelectionView>,
    i: int,
    survivors: Seq<Entry>,
    max_point: u32,
) -> Option<ParseErrorView> {
    let s = sels[i];
    if lookup(survivors, s.character) is None {
        Some(ParseErrorView::InvalidCharacter(s.character))
    } else if s.talents.len() != 2 {
        Some(ParseErrorView::WrongTalentCount(s.character, s.talents.len() as usize))
    } else if !is_valid_talent(s.talents[0]) {
        Some(ParseErrorView::InvalidTalent(s.talents[0]))
    } else if !is_valid_talent(s.talents[1]) {
        Some(ParseErrorView::InvalidTalent(s.talents[1]))
    } else if s.point > max_point || s.point == 0 {
        Some(ParseErrorView::PointOutOfRange(s.point, max_point))
    } else if exists|j: int| 0 <= j < i && (#[trigger] sels[j]).point == s.point {
        Some(ParseErrorView::DuplicatePoint(s.point))
    } else {
        None
    }
}

pub open spec fn first_error_from(
    sels: Seq<SelectionView>,
    i: int,
    survivors: Seq<Entry>,
    max_point: u32,
) -> Option<ParseErrorView>
    decreases sels.len() - i,
{
    if i < 0 || i >= sels.len() {
        None
    } else {
        match selection_error(sels, i, survivors, max_point) {
            Some(e) => Some(e),
            None => first_error_from(sels, i + 1, survivors, max_point),
        }
    }
}

/// What reading one plan gives.
pub enum PlanReading {
    Broken,
    Failed(ParseErrorView),
    Read(PlanView),
}

pub open spec fn read_plan(text: Seq<char>, survivors: Seq<Entry>, max_point: u32) -> PlanReading {
    let st = plan_fold(trimmed_lines(text));
    if st.broken {
        PlanReading::Broken
    } else if st.sels.len() != 4 {
        PlanReading::Failed(ParseErrorView::WrongCharacterCount(st.sels.len() as usize))
    } else {
        match first_error_from(st.sels, 0, survivors, max_point) {
            Some(e) => PlanReading::Failed(e),
            None => PlanReading::Read(
                PlanView { index: 0, selections: st.sels, description: st.desc },
            ),
        }
    }
}

// ---------------------------------------------------- reading all plans

/// The last position in `s` of a character of class `k`.
pub open spec fn last_index_in(s: Seq<char>, k: Class) -> Option<int>
    decreases s.len(),
{
    if s.len() == 0 {
        None
    } else if k.has(s.last()) {
        Some(s.len() - 1)
    } else {
        last_index_in(s.drop_last(), k)
    }
}

/// A text longer than `max` characters cut to its first `max`, then back
/// to the last sentence end among them if there is one, and marked with `…`.
pub open spec fn truncate_to_sentence(text: Seq<char>, max: nat) -> Seq<char> {
    if text.len() <= max {
        text
    } else {
        let t = text.take(max as int);
        match last_index_in(t, sentence_endings()) {
            Some(pos) => text.take(pos + 1).push('…'),
            None => t.push('…'),
        }
    }
}

/// A plan whose trimmed description is too long gets it shortened.
pub open spec fn shorten(p: PlanView) -> PlanView {
    let d = trim(p.description);
    if d.len() > description_limit() {
        PlanView { description: truncate_to_sentence(d, description_limit()), ..p }
    } else {
        p
    }
}

pub enum Collected {
    Plans(Seq<PlanView>),
    Failed(ParseErrorView),
    Broken,
}

/// The plans read from the texts, in order: a failing first plan fails all,
/// a failing later plan is left out.
pub open spec fn collect(texts: Seq<Seq<char>>, survivors: Seq<Entry>, max_point: u32) -> Collected
    decreases texts.len(),
{
    if texts.len() == 0 {
        Collected::Plans(Seq::empty())
    } else {
        match collect(texts.drop_last(), survivors, max_point) {
            Collected::Plans(v) => match read_plan(texts.last(), survivors, max_point) {
                PlanReading::Broken => Collected::Broken,
                PlanReading::Failed(e) => if texts.len() == 1 {
                    Collected::Failed(e)
                } else {
                    Collected::Plans(v)
                },
                PlanReading::Read(p) => Collected::Plans(v.push(p)),
            },
            other => other,
        }
    }
}

pub open spec fn shortened(ps: Seq<PlanView>) -> Seq<PlanView> {
    ps.map_values(|p: PlanView| shorten(p))
}

/// What reading a raw answer gives; `None` where the reading panics.
pub open spec fn parse_outcome(raw: Seq<char>, survivors: Seq<Entry>, max_point: u32) -> Option<
    Result<Seq<PlanView>, ParseErrorView>,
> {
    let texts = split_plans(raw);
    if texts.len() == 0 {
        Some(Err(ParseErrorView::NotEnoughPlans))
    } else {
        match collect(texts, survivors, max_point) {
            Collected::Broken => None,
            Collected::Failed(e) => Some(Err(e)),
            Collected::Plans(v) => if v.len() == 0 {
                Some(Err(ParseErrorView::NoValidPlans))
            } else {
                Some(Ok(shortened(v)))
            },
        }
    }
}


// ================================================================ exec

fn plan_word_v() -> (r: Vec<char>)
    ensures
        r@ == plan_word(),
{
    let r = vec!['方', '案'];
    assert(r@ =~= plan_word());
    r
}

fn is_plan_header_v(line: &Vec<char>) -> (b: bool)
    ensures
        b == is_plan_header(line@),
{
    starts_with_v(line, &plan_word_v())
}

/// The texts of the plans in a raw answer.
pub fn split_plans_v(raw: &Vec<char>) -> (r: Vec<Vec<char>>)
    ensures
        views(r@) == split_plans(raw@),
{
    let ls = trimmed_lines_v(raw);
    let mut plans: Vec<Vec<char>> = Vec::new();
    let mut current: Vec<char> = Vec::new();
    let mut in_plan = false;
    let mut i: usize = 0;
    assert(views(ls@).take(0) =~= Seq::<Seq<char>>::empty());
    assert(views(plans@) =~= Seq::<Seq<char>>::empty());
    while i < ls.len()
        invariant
            i <= ls.len(),
            views(ls@) == trimmed_lines(raw@),
            split_fold(views(ls@).take(i as int)) == (SplitState {
                plans: views(plans@),
                current: current@,
                in_plan,
            }),
        decreases ls.len() - i,
    {
        let line = &ls[i];
        let ghost st = split_fold(views(ls@).take(i as int));
        assert(views(ls@).take(i + 1).drop_last() =~= views(ls@).take(i as int));
        assert(views(ls@).take(i + 1).last() == line@);
        if is_plan_header_v(line) {
            if in_plan && current.len() > 0 {
                let t = trim_v(&current);
                plans.push(t);
                current = Vec::new();
                assert(views(plans@) =~= st.plans.push(trim(st.current)));
            }
            let ghost base = current@;
            append_chars(&mut current, line);
            current.push('\n');
            assert(current@ =~= base + line@ + seq!['\n']);
            in_plan = true;
        } else if in_plan {
            append_chars(&mut current, line);
            current.push('\n');
            assert(current@ =~= st.current + line@ + seq!['\n']);
        }
        i = i + 1;
    }
    assert(views(ls@).take(ls.len() as int) =~= views(ls@));
    if in_plan {
        let t = trim_v(&current);
        if t.len() > 0 {
            plans.push(t);
            assert(views(plans@) =~= split_fold(trimmed_lines(raw@)).plans.push(
                trim(split_fold(trimmed_lines(raw@)).current),
            ));
        }
    }
    plans
}

/// The talents listed in `s`.
fn talent_list_v(s: &Vec<char>) -> (r: Vec<String>)
    ensures
        string_views(r@) == talent_list(s@),
{
    let seps = CharSet::any_of(vec!['、', ',', '，', '/', ' ']);
    assert(seps.chars@ =~= seq!['、', ',', '，', '/', ' ']);
    let pieces = split_v(s, &seps);
    let ghost trimmed = split(s@, talent_separators()).map_values(|t: Seq<char>| trim(t));
    let mut out: Vec<String> = Vec::new();
    let mut i: usize = 0;
    assert(trimmed.take(0) =~= Seq::<Seq<char>>::empty());
    assert(string_views(out@) =~= Seq::<Seq<char>>::empty());
    while i < pieces.len()
        invariant
            i <= pieces.len(),
            views(pieces@) == split(s@, talent_separators()),
            trimmed.len() == pieces.len(),
            trimmed == split(s@, talent_separators()).map_values(|t: Seq<char>| trim(t)),
            string_views(out@) == keep_nonempty(trimmed.take(i as int)),
        decreases pieces.len() - i,
    {
        let t = trim_v(&pieces[i]);
        assert(trimmed[i as int] == trim(pieces@[i as int]@));
        assert(trimmed.take(i + 1).drop_last() =~= trimmed.take(i as int));
        assert(trimmed.take(i + 1).last() == t@);
        if t.len() > 0 {
            out.push(from_chars(&t));
            assert(string_views(out@) =~= keep_nonempty(trimmed.take(i as int)).push(t@));
        }
        i = i + 1;
    }
    assert(trimmed.take(pieces.len() as int) =~= trimmed);
    out
}

fn last_index_in_v(s: &Vec<char>, k: &CharSet) -> (r: Option<usize>)
    ensures
        r matches Some(i) ==> last_index_in(s@, k@) == Some(i as int) && i < s.len(),
        r is None ==> last_index_in(s@, k@) is None,
{
    let mut i = s.len();
    assert(s@.take(s.len() as int) =~= s@);
    while i > 0
        invariant
            i <= s.len(),
            last_index_in(s@, k@) == last_index_in(s@.take(i as int), k@),
        decreases i,
    {
        let ghost t = s@.take(i as int);
        assert(t.drop_last() =~= s@.take(i - 1));
        if k.has(s[i - 1]) {
            return Some(i - 1);
        }
        i = i - 1;
    }
    None
}

/// A long text cut back to its last whole sentence within `max` characters.
pub fn truncate_to_sentence_v(text: &Vec<char>, max: usize) -> (r: Vec<char>)
    ensures
        r@ == truncate_to_sentence(text@, max as nat),
{
    if text.len() <= max {
        return copy_range(text, 0, text.len());
    }
    let t = copy_range(text, 0, max);
    let ends = CharSet::any_of(vec!['。', '！', '？', '；', '.', '!', '?', ';']);
    assert(ends.chars@ =~= seq!['。', '！', '？', '；', '.', '!', '?', ';']);
    match last_index_in_v(&t, &ends) {
        Some(pos) => {
            let mut r = copy_range(text, 0, pos + 1);
            r.push('…');
            assert(r@ =~= text@.take(pos + 1).push('…'));
            r
        },
        None => {
            let mut r = t;
            r.push('…');
            r
        },
    }
}


/// What one line of a plan says (executable form of `LineReading`).
pub enum LineScan {
    Nothing,
    Sel(Selection),
    Broken,
}

pub open spec fn scan_view(r: LineScan) -> LineReading {
    match r {
        LineScan::Nothing => LineReading::Nothing,
        LineScan::Sel(s) => LineReading::Sel(s@),
        LineScan::Broken => LineReading::Broken,
    }
}

fn utf8_len_v(c: char) -> (n: usize)
    ensures
        n == utf8_len(c),
{
    let v = c as u32;
    if v < 0x80 {
        1
    } else if v < 0x800 {
        2
    } else if v < 0x10000 {
        3
    } else {
        4
    }
}

fn ascii_colon_skip_v(rest: &Vec<char>, c: usize) -> (r: Option<usize>)
    requires
        c < rest.len(),
    ensures
        r matches Some(t) ==> ascii_colon_skip(rest@, c as int) == Some(t as int) && t <= rest.len(),
        r is None ==> ascii_colon_skip(rest@, c as int) is None,
{
    if c + 1 >= rest.len() {
        None
    } else if utf8_len_v(rest[c + 1]) == 2 {
        Some(c + 2)
    } else if utf8_len_v(rest[c + 1]) == 1 && c + 2 < rest.len() && utf8_len_v(rest[c + 2]) == 1 {
        Some(c + 3)
    } else {
        None
    }
}

fn selection_at_v(point: u32, rest: &Vec<char>, c: usize, t: usize) -> (r: Selection)
    requires
        c <= rest.len(),
        t <= rest.len(),
    ensures
        r@ == selection_at(point, rest@, c as int, t as int),
{
    let name = trim_v(&copy_range(rest, 0, c));
    assert(rest@.subrange(0, c as int) =~= rest@.take(c as int));
    let tail = trim_v(&copy_range(rest, t, rest.len()));
    assert(rest@.subrange(t as int, rest.len() as int) =~= rest@.skip(t as int));
    let talents = talent_list_v(&tail);
    Selection { point, character: from_chars(&name), talents }
}

/// The reading of one line of a plan as a selection line.
pub fn selection_line_v(line: &Vec<char>) -> (r: LineScan)
    ensures
        scan_view(r) == selection_line(line@),
{
    let l1 = trim_v(line);
    let stop = CharSet::any_of(vec!['。']);
    assert(stop.chars@ =~= seq!['。']);
    let dot = CharSet::any_of(vec!['.']);
    assert(dot.chars@ =~= seq!['.']);
    let l2 = trim_end_v(&trim_end_v(&l1, &stop), &dot);
    let pw = vec!['号', '选', '点'];
    assert(pw@ =~= point_word());
    let pe = match find_v(&l2, &pw) {
        None => {
            return LineScan::Nothing;
        },
        Some(pe) => pe,
    };
    proof {
        lemma_find(l2@, pw@);
        assert(matches_at(l2@, pw@, pe as int));
    }
    assert(pe + 3 <= l2.len());
    let num = trim_v(&copy_range(&l2, 0, pe));
    assert(l2@.subrange(0, pe as int) =~= l2@.take(pe as int));
    let point = match parse_u32_v(&num) {
        None => {
            return LineScan::Nothing;
        },
        Some(p) => p,
    };
    let r1 = copy_range(&l2, pe + 3, l2.len());
    assert(r1@ =~= l2@.skip(pe + 3));
    let lead = CharSet::any_of(vec!['：', ':', ' ']);
    assert(lead.chars@ =~= seq!['：', ':', ' ']);
    let r2 = trim_v(&trim_start_v(&r1, &lead));
    let place = vec!['放', '置'];
    assert(place@ =~= place_word());
    let rest = trim_v(&trim_start_str_v(&r2, &place));
    match find_char_v(&rest, '：') {
        Some(c) => {
            proof {
                lemma_find(rest@, seq!['：']);
                assert(seq!['：'].len() == 1);
                assert(matches_at(rest@, seq!['：'], c as int));
                assert(c < rest.len());
            }
            LineScan::Sel(selection_at_v(point, &rest, c, c + 1))
        },
        None => match find_char_v(&rest, ':') {
            None => LineScan::Nothing,
            Some(c) => {
                proof {
                    lemma_find(rest@, seq![':']);
                    assert(seq![':'].len() == 1);
                    assert(matches_at(rest@, seq![':'], c as int));
                }
                match ascii_colon_skip_v(&rest, c) {
                    None => LineScan::Broken,
                    Some(t) => LineScan::Sel(selection_at_v(point, &rest, c, t)),
                }
            },
        },
    }
}


fn same_chars(a: &Vec<char>, b: &Vec<char>) -> (r: bool)
    ensures
        r == (a@ == b@),
{
    if a.len() != b.len() {
        return false;
    }
    let r = matches_at_v(a, b, 0);
    assert(a@.subrange(0, b.len() as int) =~= a@);
    r
}

fn opens_description_v(line: &Vec<char>) -> (b: bool)
    ensures
        b == opens_description(line@),
{
    let p1 = vec!['具', '体', '描', '述'];
    let p2 = vec!['描', '述', '及', '分', '析'];
    let p3 = vec!['描', '述'];
    assert(p1@ =~= seq!['具', '体', '描', '述']);
    assert(p2@ =~= seq!['描', '述', '及', '分', '析']);
    assert(p3@ =~= seq!['描', '述']);
    starts_with_v(line, &p1) || starts_with_v(line, &p2) || starts_with_v(line, &p3)
}

fn description_of_v(line: &Vec<char>) -> (r: Vec<char>)
    ensures
        r@ == description_of(line@),
{
    match find_char_v(line, '：') {
        Some(p) => {
            proof {
                lemma_find(line@, seq!['：']);
                assert(seq!['：'].len() == 1);
                assert(matches_at(line@, seq!['：'], p as int));
            }
            assert(p < line.len());
            let tail = copy_range(line, p + 1, line.len());
            assert(tail@ =~= line@.skip(p + 1));
            trim_v(&tail)
        },
        None => copy_range(line, 0, line.len()),
    }
}

fn is_valid_talent_v(t: &String) -> (b: bool)
    ensures
        b == is_valid_talent(t@),
{
    let tc = to_chars(t.as_str());
    let a = vec!['回', '光', '返', '照'];
    let b = vec!['飞', '轮', '效', '应'];
    let c = vec!['膝', '跳', '反', '射'];
    let d = vec!['化', '险', '为', '夷'];
    let ghost vt = valid_talents();
    assert(a@ =~= vt[0]);
    assert(b@ =~= vt[1]);
    assert(c@ =~= vt[2]);
    assert(d@ =~= vt[3]);
    let r = same_chars(&tc, &a) || same_chars(&tc, &b) || same_chars(&tc, &c) || same_chars(
        &tc,
        &d,
    );
    proof {
        if r {
            if tc@ == vt[0] {
                assert(vt.contains(tc@));
            } else if tc@ == vt[1] {
                assert(vt.contains(tc@));
            } else if tc@ == vt[2] {
                assert(vt.contains(tc@));
            } else {
                assert(vt.contains(tc@));
            }
        } else {
            assert forall|i: int| 0 <= i < vt.len() implies vt[i] != tc@ by {
                assert(vt.len() == 4);
            }
        }
    }
    r
}

fn selection_error_v(sels: &Vec<Selection>, i: usize, db: &ResourceDb, max_point: u32) -> (r:
    Option<ParseError>)
    requires
        i < sels.len(),
    ensures
        match selection_error(selection_views(sels@), i as int, db.survivors@, max_point) {
            Some(e) => r matches Some(x) && x@ == e,
            None => r is None,
        },
{
    let ghost sv = selection_views(sels@);
    let s = &sels[i];
    assert(sv[i as int] == s@);
    if db.find_character(s.character.as_str()).is_none() {
        return Some(ParseError::InvalidCharacter(s.character.clone()));
    }
    if s.talents.len() != 2 {
        return Some(ParseError::WrongTalentCount(s.character.clone(), s.talents.len()));
    }
    assert(s@.talents[0] == s.talents@[0]@);
    assert(s@.talents[1] == s.talents@[1]@);
    if !is_valid_talent_v(&s.talents[0]) {
        return Some(ParseError::InvalidTalent(s.talents[0].clone()));
    }
    if !is_valid_talent_v(&s.talents[1]) {
        return Some(ParseError::InvalidTalent(s.talents[1].clone()));
    }
    if s.point > max_point || s.point == 0 {
        return Some(ParseError::PointOutOfRange(s.point, max_point));
    }
    let mut j: usize = 0;
    let mut dup = false;
    while j < i && !dup
        invariant
            j <= i < sels.len(),
            sv == selection_views(sels@),
            s == &sels@[i as int],
            dup ==> 0 < j && sv[j - 1].point == s.point,
            !dup ==> forall|k: int| 0 <= k < j ==> (#[trigger] sv[k]).point != s.point,
        decreases i - j,
    {
        assert(sv[j as int] == sels@[j as int]@);
        if sels[j].point == s.point {
            dup = true;
        }
        j = j + 1;
    }
    if dup {
        assert(sv[j - 1].point == sv[i as int].point);
        return Some(ParseError::DuplicatePoint(s.point));
    }
    None
}

proof fn lemma_first_error_step(sels: Seq<SelectionView>, i: int, survivors: Seq<Entry>, m: u32)
    requires
        0 <= i < sels.len(),
        selection_error(sels, i, survivors, m) is None,
    ensures
        first_error_from(sels, i, survivors, m) == first_error_from(sels, i + 1, survivors, m),
{
}

fn first_error_v(sels: &Vec<Selection>, db: &ResourceDb, max_point: u32) -> (r: Option<
    ParseError,
>)
    ensures
        match first_error_from(selection_views(sels@), 0, db.survivors@, max_point) {
            Some(e) => r matches Some(x) && x@ == e,
            None => r is None,
        },
{
    let ghost sv = selection_views(sels@);
    let mut i: usize = 0;
    while i < sels.len()
        invariant
            i <= sels.len(),
            sv == selection_views(sels@),
            first_error_from(sv, 0, db.survivors@, max_point) == first_error_from(
                sv,
                i as int,
                db.survivors@,
                max_point,
            ),
        decreases sels.len() - i,
    {
        match selection_error_v(sels, i, db, max_point) {
            Some(e) => {
                return Some(e);
            },
            None => {
                proof {
                    lemma_first_error_step(sv, i as int, db.survivors@, max_point);
                }
            },
        }
        i = i + 1;
    }
    None
}

/// The outcome of reading one plan (executable form of `PlanReading`).
pub enum PlanRead {
    Broken,
    Failed(ParseError),
    Read(Plan),
}

pub open spec fn plan_read_view(r: PlanRead) -> PlanReading {
    match r {
        PlanRead::Broken => PlanReading::Broken,
        PlanRead::Failed(e) => PlanReading::Failed(e@),
        PlanRead::Read(p) => PlanReading::Read(p@),
    }
}

/// One plan's text read into a plan and checked.
pub fn read_plan_v(text: &Vec<char>, db: &ResourceDb, max_point: u32) -> (r: PlanRead)
    ensures
        plan_read_view(r) == read_plan(text@, db.survivors@, max_point),
{
    let ls = trimmed_lines_v(text);
    let pw = plan_word_v();
    let mut sels: Vec<Selection> = Vec::new();
    let mut desc: Vec<char> = Vec::new();
    let mut desc_found = false;
    let mut broken = false;
    let mut i: usize = 0;
    assert(views(ls@).take(0) =~= Seq::<Seq<char>>::empty());
    assert(selection_views(sels@) =~= Seq::<SelectionView>::empty());
    while i < ls.len()
        invariant
            i <= ls.len(),
            pw@ == plan_word(),
            views(ls@) == trimmed_lines(text@),
            plan_fold(views(ls@).take(i as int)) == (PlanState {
                sels: selection_views(sels@),
                desc: desc@,
                desc_found,
                broken,
            }),
        decreases ls.len() - i,
    {
        let line = &ls[i];
        let ghost st = plan_fold(views(ls@).take(i as int));
        assert(views(ls@).take(i + 1).drop_last() =~= views(ls@).take(i as int));
        assert(views(ls@).take(i + 1).last() == line@);
        if broken || line.len() == 0 || starts_with_v(line, &pw) {
        } else if opens_description_v(line) {
            desc = description_of_v(line);
            desc_found = true;
        } else if desc_found {
            let ghost d0 = desc@;
            if desc.len() > 0 {
                desc.push('\n');
            }
            append_chars(&mut desc, line);
            assert(desc@ =~= (if d0.len() > 0 {
                d0.push('\n')
            } else {
                d0
            }) + line@);
        } else {
            match selection_line_v(line) {
                LineScan::Nothing => {},
                LineScan::Sel(sel) => {
                    sels.push(sel);
                    assert(selection_views(sels@) =~= st.sels.push(sels@.last()@));
                },
                LineScan::Broken => {
                    broken = true;
                },
            }
        }
        i = i + 1;
    }
    assert(views(ls@).take(ls.len() as int) =~= views(ls@));
    if broken {
        return PlanRead::Broken;
    }
    if sels.len() != 4 {
        return PlanRead::Failed(ParseError::WrongCharacterCount(sels.len()));
    }
    match first_error_v(&sels, db, max_point) {
        Some(e) => PlanRead::Failed(e),
        None => PlanRead::Read(Plan { index: 0, selections: sels, description: from_chars(&desc) }),
    }
}

fn shorten_v(p: Plan) -> (r: Plan)
    ensures
        r@ == shorten(p@),
{
    let Plan { index, selections, description } = p;
    let d = trim_v(&to_chars(description.as_str()));
    if d.len() > 100 {
        let t = truncate_to_sentence_v(&d, 100);
        Plan { index, selections, description: from_chars(&t) }
    } else {
        Plan { index, selections, description }
    }
}

proof fn lemma_collect_settled(texts: Seq<Seq<char>>, s: Seq<Entry>, m: u32, k: int, n: int)
    requires
        0 <= k <= n <= texts.len(),
        !(collect(texts.take(k), s, m) is Plans),
    ensures
        collect(texts.take(n), s, m) == collect(texts.take(k), s, m),
    decreases n - k,
{
    if n > k {
        lemma_collect_settled(texts, s, m, k, n - 1);
        assert(texts.take(n).drop_last() =~= texts.take(n - 1));
    }
}

fn parse_core(raw: &str, db: &ResourceDb, max_point: u32) -> (r: Option<
    Result<Vec<Plan>, ParseError>,
>)
    ensures
        match parse_outcome(raw@, db.survivors@, max_point) {
            None => r is None,
            Some(Ok(ps)) => r matches Some(Ok(v)) && plan_views(v@) == ps,
            Some(Err(e)) => r matches Some(Err(x)) && x@ == e,
        },
{
    let rc = to_chars(raw);
    let texts = split_plans_v(&rc);
    let ghost tv = views(texts@);
    if texts.len() == 0 {
        return Some(Err(ParseError::NotEnoughPlans));
    }
    let mut valid: Vec<Plan> = Vec::new();
    let ghost mut kept: Seq<PlanView> = Seq::empty();
    let mut i: usize = 0;
    assert(tv.take(0) =~= Seq::<Seq<char>>::empty());
    assert(plan_views(valid@) =~= Seq::<PlanView>::empty());
    while i < texts.len()
        invariant
            i <= texts.len(),
            tv == views(texts@),
            tv == split_plans(raw@),
            collect(tv.take(i as int), db.survivors@, max_point) == Collected::Plans(kept),
            plan_views(valid@) == shortened(kept),
        decreases texts.len() - i,
    {
        assert(tv.take(i + 1).drop_last() =~= tv.take(i as int));
        assert(tv.take(i + 1).last() == texts@[i as int]@);
        match read_plan_v(&texts[i], db, max_point) {
            PlanRead::Broken => {
                proof {
                    lemma_collect_settled(tv, db.survivors@, max_point, i + 1, tv.len() as int);
                    assert(tv.take(tv.len() as int) =~= tv);
                }
                return None;
            },
            PlanRead::Failed(e) => {
                if i == 0 {
                    proof {
                        lemma_collect_settled(tv, db.survivors@, max_point, 1, tv.len() as int);
                        assert(tv.take(tv.len() as int) =~= tv);
                    }
                    return Some(Err(e));
                }
            },
            PlanRead::Read(p) => {
                let ghost pv = p@;
                let ghost before = plan_views(valid@);
                let q = shorten_v(p);
                valid.push(q);
                assert(plan_views(valid@) =~= before.push(shorten(pv)));
                assert(shortened(kept.push(pv)) =~= shortened(kept).push(shorten(pv)));
                proof {
                    kept = kept.push(pv);
                }
            },
        }
        i = i + 1;
    }
    assert(tv.take(tv.len() as int) =~= tv);
    if valid.len() == 0 {
        return Some(Err(ParseError::NoValidPlans));
    }
    Some(Ok(valid))
}

/// Reads a model's raw answer as plans and checks them against the
/// catalogue's survivors and the map's highest point number.
pub fn parse_and_validate(raw: &str, db: &ResourceDb, max_point: u32) -> (r: Result<
    Vec<Plan>,
    ParseError,
>)
    requires
        parse_outcome(raw@, db.survivors@, max_point) is Some,
    ensures
        match parse_outcome(raw@, db.survivors@, max_point) {
            Some(Ok(ps)) => r matches Ok(v) && plan_views(v@) == ps,
            Some(Err(e)) => r matches Err(x) && x@ == e,
            None => false,
        },
{
    match parse_core(raw, db, max_point) {
        Some(r) => r,
        None => Err(ParseError::NoValidPlans),
    }
}

/// As `parse_and_validate`, for every answer: `None` for the answers whose
/// reading would panic.
pub fn try_parse_and_validate(raw: &str, db: &ResourceDb, max_point: u32) -> (r: Option<
    Result<Vec<Plan>, ParseError>,
>)
    ensures
        match parse_outcome(raw@, db.survivors@, max_point) {
            None => r is None,
            Some(Ok(ps)) => r matches Some(Ok(v)) && plan_views(v@) == ps,
            Some(Err(e)) => r matches Some(Err(x)) && x@ == e,
        },
{
    if parse_core(raw, db, max_point).is_some() {
        Some(parse_and_validate(raw, db, max_point))
    } else {
        None
    }
}


// ================================================================= laws

/// A selection that passes every check.
pub open spec fn selection_is_valid(
    sels: Seq<SelectionView>,
    k: int,
    survivors: Seq<Entry>,
    max_point: u32,
) -> bool {
    let s = sels[k];
    &&& lookup(survivors, s.character) is Some
    &&& s.talents.len() == 2
    &&& is_valid_talent(s.talents[0])
    &&& is_valid_talent(s.talents[1])
    &&& 1 <= s.point <= max_point
    &&& forall|j: int| 0 <= j < k ==> (#[trigger] sels[j]).point != s.point
}

/// A plan as the format demands: four selections on distinct points of the
/// map, each a known survivor with two valid talents, and a description
/// that is short or cut to a sentence end and marked with `…`.
pub open spec fn plan_is_valid(p: PlanView, survivors: Seq<Entry>, max_point: u32) -> bool {
    &&& p.selections.len() == 4
    &&& forall|k: int|
        0 <= k < 4 ==> #[trigger] selection_is_valid(p.selections, k, survivors, max_point)
    &&& trim(p.description).len() <= description_limit() || (p.description.len()
        <= description_limit() + 1 && p.description.last() == '…')
}

proof fn lemma_no_error_from(sels: Seq<SelectionView>, i: int, survivors: Seq<Entry>, m: u32)
    requires
        0 <= i,
        first_error_from(sels, i, survivors, m) is None,
    ensures
        forall|k: int|
            i <= k < sels.len() ==> #[trigger] selection_error(sels, k, survivors, m) is None,
    decreases sels.len() - i,
{
    if i < sels.len() {
        lemma_no_error_from(sels, i + 1, survivors, m);
    }
}

proof fn lemma_read_plan_valid(text: Seq<char>, survivors: Seq<Entry>, m: u32)
    ensures
        read_plan(text, survivors, m) matches PlanReading::Read(p) ==> p.selections.len() == 4
            && forall|k: int|
            0 <= k < 4 ==> #[trigger] selection_is_valid(p.selections, k, survivors, m),
{
    if let PlanReading::Read(p) = read_plan(text, survivors, m) {
        lemma_no_error_from(p.selections, 0, survivors, m);
        assert forall|k: int| 0 <= k < 4 implies #[trigger] selection_is_valid(
            p.selections,
            k,
            survivors,
            m,
        ) by {
            assert(selection_error(p.selections, k, survivors, m) is None);
        }
    }
}

proof fn lemma_collect_valid(texts: Seq<Seq<char>>, survivors: Seq<Entry>, m: u32)
    ensures
        collect(texts, survivors, m) matches Collected::Plans(v) ==> forall|i: int|
            0 <= i < v.len() ==> (#[trigger] v[i]).selections.len() == 4 && forall|k: int|
                0 <= k < 4 ==> #[trigger] selection_is_valid(v[i].selections, k, survivors, m),
    decreases texts.len(),
{
    if texts.len() > 0 {
        lemma_collect_valid(texts.drop_last(), survivors, m);
        lemma_read_plan_valid(texts.last(), survivors, m);
    }
}

proof fn lemma_truncate_fits(text: Seq<char>, max: nat)
    requires
        text.len() > max,
    ensures
        truncate_to_sentence(text, max).len() <= max + 1,
        truncate_to_sentence(text, max).last() == '…',
{
    let t = text.take(max as int);
    lemma_last_index_in(t, sentence_endings());
}

/// Every plan that a successful reading returns is valid (see
/// `plan_is_valid`), and there is at least one.
pub proof fn lemma_accepted_plans_are_valid(raw: Seq<char>, survivors: Seq<Entry>, max_point: u32)
    requires
        parse_outcome(raw, survivors, max_point) is Some,
        parse_outcome(raw, survivors, max_point)->0 is Ok,
    ensures
        parse_outcome(raw, survivors, max_point)->0->Ok_0.len() >= 1,
        forall|i: int|
            0 <= i < parse_outcome(raw, survivors, max_point)->0->Ok_0.len() ==> plan_is_valid(
                #[trigger] parse_outcome(raw, survivors, max_point)->0->Ok_0[i],
                survivors,
                max_point,
            ),
{
    let texts = split_plans(raw);
    lemma_collect_valid(texts, survivors, max_point);
    if let Collected::Plans(v) = collect(texts, survivors, max_point) {
        let ps = shortened(v);
        assert forall|i: int| 0 <= i < ps.len() implies plan_is_valid(
            #[trigger] ps[i],
            survivors,
            max_point,
        ) by {
            assert(ps[i] == shorten(v[i]));
            assert(v[i].selections.len() == 4);
            let d = trim(v[i].description);
            if d.len() > description_limit() {
                lemma_truncate_fits(d, description_limit());
            }
        }
    }
}


proof fn lemma_trim_end_keeps(s: Seq<char>, k: Class, j: int)
    requires
        0 <= j < s.len(),
        !k.has(s[j]),
    ensures
        trim_end(s, k).len() > j,
    decreases s.len(),
{
    if k.has(s.last()) {
        lemma_trim_end_keeps(s.drop_last(), k, j);
    }
}

proof fn lemma_trim_keeps_plan_word(s: Seq<char>)
    requires
        starts_with(s, plan_word()),
    ensures
        starts_with(trim(s), plan_word()),
{
    assert(s.subrange(0, 2)[0] == s[0]);
    assert(s.subrange(0, 2)[1] == s[1]);
    assert(s[0] == '方' && s[1] == '案');
    assert(trim_start(s, Class::Space) == s);
    lemma_trim_end_keeps(s, Class::Space, 1);
    lemma_trim_end_prefix(s, Class::Space);
    let t = trim_end(s, Class::Space);
    assert(t.subrange(0, 2) =~= s.subrange(0, 2));
}

proof fn lemma_split_fold_shape(ls: Seq<Seq<char>>)
    ensures
        ({
            let st = split_fold(ls);
            &&& st.in_plan ==> starts_with(st.current, plan_word())
            &&& !st.in_plan ==> st.current.len() == 0
            &&& forall|i: int|
                0 <= i < st.plans.len() ==> starts_with(#[trigger] st.plans[i], plan_word())
        }),
    decreases ls.len(),
{
    if ls.len() > 0 {
        lemma_split_fold_shape(ls.drop_last());
        let st = split_fold(ls.drop_last());
        let line = ls.last();
        if is_plan_header(line) {
            if st.in_plan && st.current.len() > 0 {
                lemma_trim_keeps_plan_word(st.current);
            }
            let next = split_fold(ls);
            assert(next.current =~= line + seq!['\n']);
            assert(next.current.subrange(0, 2) =~= line.subrange(0, 2));
        } else if st.in_plan {
            let next = split_fold(ls);
            assert(next.current.subrange(0, 2) =~= st.current.subrange(0, 2));
        }
    }
}

/// How many of the lines open a plan.
pub open spec fn header_count(ls: Seq<Seq<char>>) -> nat
    decreases ls.len(),
{
    if ls.len() == 0 {
        0
    } else {
        header_count(ls.drop_last()) + if is_plan_header(ls.last()) {
            1nat
        } else {
            0nat
        }
    }
}

proof fn lemma_split_fold_count(ls: Seq<Seq<char>>)
    ensures
        split_fold(ls).plans.len() + (if split_fold(ls).in_plan {
            1nat
        } else {
            0nat
        }) == header_count(ls),
    decreases ls.len(),
{
    if ls.len() > 0 {
        lemma_split_fold_count(ls.drop_last());
        lemma_split_fold_shape(ls.drop_last());
    }
}

/// Every line that starts with "方案" separates the plans: there are as
/// many plans as such lines.
pub proof fn lemma_one_plan_per_header(raw: Seq<char>)
    ensures
        split_plans(raw).len() == header_count(trimmed_lines(raw)),
{
    let ls = trimmed_lines(raw);
    lemma_split_fold_count(ls);
    lemma_split_fold_shape(ls);
    let st = split_fold(ls);
    if st.in_plan {
        lemma_trim_keeps_plan_word(st.current);
    }
}

/// Every plan text that the splitting gives opens with "方案": what stands
/// before the first plan header is dropped.
pub proof fn lemma_plans_open_with_header(raw: Seq<char>)
    ensures
        forall|i: int|
            0 <= i < split_plans(raw).len() ==> starts_with(
                #[trigger] split_plans(raw)[i],
                plan_word(),
            ),
{
    let st = split_fold(trimmed_lines(raw));
    lemma_split_fold_shape(trimmed_lines(raw));
    if st.in_plan && trim(st.current).len() > 0 {
        lemma_trim_keeps_plan_word(st.current);
    }
}


proof fn lemma_last_index_in(s: Seq<char>, k: Class)
    ensures
        last_index_in(s, k) matches Some(i) ==> 0 <= i < s.len() && k.has(s[i]) && forall|j: int|
            i < j < s.len() ==> !k.has(#[trigger] s[j]),
        last_index_in(s, k) is None ==> forall|j: int| 0 <= j < s.len() ==> !k.has(#[trigger] s[j]),
    decreases s.len(),
{
    if s.len() > 0 && !k.has(s.last()) {
        let t = s.drop_last();
        lemma_last_index_in(t, k);
        assert forall|j: int| 0 <= j < t.len() implies #[trigger] s[j] == t[j] by {}
    }
}

/// A text over the limit is cut after the last sentence end among its first
/// `max` characters, or at `max` when they hold none, and marked with `…`:
/// nothing after the cut and before the limit ends a sentence.
pub proof fn lemma_cut_at_last_sentence(text: Seq<char>, max: nat)
    requires
        text.len() > max,
    ensures
        exists|k: int|
            0 <= k <= max && truncate_to_sentence(text, max) == text.take(k).push('…') && (forall|
                j: int,
            | k <= j < max ==> !sentence_endings().has(#[trigger] text[j])) && (k == max || (k
                >= 1 && sentence_endings().has(text[k - 1]))),
{
    let t = text.take(max as int);
    lemma_last_index_in(t, sentence_endings());
    match last_index_in(t, sentence_endings()) {
        Some(pos) => {
            let k = pos + 1;
            assert(text.take(k) =~= text.take(pos + 1));
            assert forall|j: int| k <= j < max implies !sentence_endings().has(
                #[trigger] text[j],
            ) by {
                assert(t[j] == text[j]);
            }
            assert(t[pos] == text[k - 1]);
        },
        None => {
            assert(text.take(max as int) =~= t);
            assert forall|j: int| max <= j < max implies !sentence_endings().has(
                #[trigger] text[j],
            ) by {}
        },
    }
}


proof fn lemma_first_error_kind(sels: Seq<SelectionView>, i: int, survivors: Seq<Entry>, m: u32)
    ensures
        first_error_from(sels, i, survivors, m) matches Some(e) ==> !(e is NoValidPlans),
    decreases sels.len() - i,
{
    if 0 <= i < sels.len() {
        lemma_first_error_kind(sels, i + 1, survivors, m);
    }
}

proof fn lemma_collect_nonempty(texts: Seq<Seq<char>>, survivors: Seq<Entry>, m: u32)
    requires
        texts.len() >= 1,
    ensures
        collect(texts, survivors, m) matches Collected::Plans(v) ==> v.len() >= 1,
        collect(texts, survivors, m) matches Collected::Failed(e) ==> !(e is NoValidPlans),
    decreases texts.len(),
{
    let st = plan_fold(trimmed_lines(texts.last()));
    lemma_first_error_kind(st.sels, 0, survivors, m);
    if texts.len() > 1 {
        lemma_collect_nonempty(texts.drop_last(), survivors, m);
        let prev = collect(texts.drop_last(), survivors, m);
        if !(prev is Plans) {
            assert(collect(texts, survivors, m) == prev);
        }
    } else {
        assert(texts.drop_last().len() == 0);
        assert(read_plan(texts.last(), survivors, m) matches PlanReading::Failed(e) ==> !(
        e is NoValidPlans));
    }
}

/// A reading never ends in `NoValidPlans`: when the first plan fails, its
/// own error is reported, so a reading that gets past it keeps that plan.
pub proof fn lemma_no_valid_plans_never_comes(raw: Seq<char>, survivors: Seq<Entry>, max_point: u32)
    ensures
        parse_outcome(raw, survivors, max_point) != Some(
            Err::<Seq<PlanView>, ParseErrorView>(ParseErrorView::NoValidPlans),
        ),
{
    let texts = split_plans(raw);
    if texts.len() > 0 {
        lemma_collect_nonempty(texts, survivors, max_point);
    }
}


proof fn lemma_trim_end_keeps_prefix(s: Seq<char>, k: Class, j: int)
    requires
        0 <= j < s.len(),
        !k.has(s[j]),
    ensures
        trim_end(s, k) == s.take(trim_end(s, k).len() as int),
        j < trim_end(s, k).len() <= s.len(),
{
    lemma_trim_end_keeps(s, k, j);
    lemma_trim_end_prefix(s, k);
}

/// The line that a selection "N 号选点…" opens, up to its point word, stays
/// whole under the trimming that a selection line gets.
proof fn lemma_numbered_line_cut(n: u32, rest: Seq<char>)
    ensures
        ({
            let d = decimal(n as nat);
            let line = d + point_word() + rest;
            let l1 = trim(line);
            let l2 = trim_end(trim_end(l1, Class::AnyOf(seq!['。'])), Class::AnyOf(seq!['.']));
            &&& d.len() + 3 <= l2.len() <= line.len()
            &&& l2 == line.take(l2.len() as int)
        }),
{
    let d = decimal(n as nat);
    lemma_decimal_digits(n as nat);
    let line = d + point_word() + rest;
    let j = d.len() + 2int;
    assert(line[j] == '点');
    assert(is_digit(d[0]));
    assert(line[0] == d[0]);
    assert(trim_start(line, Class::Space) == line);
    lemma_trim_end_keeps_prefix(line, Class::Space, j);
    let l1 = trim(line);
    assert(l1 == trim_end(line, Class::Space));
    assert(l1.len() > j);
    assert(l1 == line.take(l1.len() as int));
    assert(line.take(l1.len() as int)[j] == line[j]);
    assert(l1[j] == '点');
    lemma_trim_end_keeps_prefix(l1, Class::AnyOf(seq!['。']), j);
    let la = trim_end(l1, Class::AnyOf(seq!['。']));
    assert(la.len() > j);
    assert(la == l1.take(la.len() as int));
    assert(l1.take(la.len() as int)[j] == l1[j]);
    assert(la[j] == '点');
    lemma_trim_end_keeps_prefix(la, Class::AnyOf(seq!['.']), j);
    let l2 = trim_end(la, Class::AnyOf(seq!['.']));
    assert(l2 =~= line.take(l2.len() as int));
}

proof fn lemma_numbered_line_point(n: u32, l2: Seq<char>)
    requires
        l2.len() >= decimal(n as nat).len() + 3,
        l2.take(decimal(n as nat).len() + 3int) == decimal(n as nat) + point_word(),
    ensures
        find(l2, point_word()) == Some(decimal(n as nat).len() as int),
        parse_u32(trim(l2.take(decimal(n as nat).len() as int))) == Some(n),
{
    let d = decimal(n as nat);
    lemma_decimal_digits(n as nat);
    lemma_parse_decimal(n);
    let p = point_word();
    let k = d.len() as int;
    assert(l2.subrange(k, k + 3) =~= l2.take(k + 3).subrange(k, k + 3));
    assert((d + p).subrange(k, k + 3) =~= p);
    assert(matches_at(l2, p, k));
    lemma_find(l2, p);
    assert forall|m: int| 0 <= m < k implies !#[trigger] matches_at(l2, p, m) by {
        assert(l2[m] == l2.take(k + 3)[m]);
        assert((d + p)[m] == d[m]);
        assert(is_digit(d[m]));
        if matches_at(l2, p, m) {
            assert(l2.subrange(m, m + 3)[0] == l2[m]);
            assert(p[0] == '号');
        }
    }
    assert(l2.take(k) =~= d);
}

/// The point of a selection line is the whole number before "号选点": for
/// every number `n`, a line that opens with `n` written in decimal and the
/// point word, whenever it reads as a selection, reads as point `n`.
pub proof fn lemma_point_is_the_whole_number(n: u32, rest: Seq<char>)
    ensures
        selection_line(decimal(n as nat) + point_word() + rest) matches LineReading::Sel(s)
            ==> s.point == n,
{
    let d = decimal(n as nat);
    let line = d + point_word() + rest;
    lemma_numbered_line_cut(n, rest);
    let l1 = trim(line);
    let l2 = trim_end(trim_end(l1, Class::AnyOf(seq!['。'])), Class::AnyOf(seq!['.']));
    assert(line.take(d.len() + 3int) =~= d + point_word());
    assert(l2.take(d.len() + 3int) =~= line.take(d.len() + 3int));
    lemma_numbered_line_point(n, l2);
}


/// A character that may stand in a survivor's name or a talent of a
/// selection line: no white space, colon, separator or full stop.
pub open spec fn plain_char(c: char) -> bool {
    !is_space(c) && c != '：' && c != ':' && c != '、' && c != ',' && c != '，' && c != '/'
        && c != '。' && c != '.'
}

pub open spec fn plain_text(s: Seq<char>) -> bool {
    s.len() > 0 && forall|i: int| 0 <= i < s.len() ==> plain_char(#[trigger] s[i])
}

/// The selection line the format asks for: "N号选点：<name>：<t1>、<t2>".
pub open spec fn selection_text(n: u32, name: Seq<char>, t1: Seq<char>, t2: Seq<char>) -> Seq<
    char,
> {
    decimal(n as nat) + point_word() + seq!['：'] + name + seq!['：'] + t1 + seq!['、'] + t2
}

proof fn lemma_trim_unchanged(s: Seq<char>)
    requires
        s.len() > 0,
        !is_space(s[0]),
        !is_space(s.last()),
    ensures
        trim(s) == s,
{
    assert(trim_start(s, Class::Space) == s);
    assert(trim_end(s, Class::Space) == s);
}

proof fn lemma_plain_trim(s: Seq<char>)
    requires
        plain_text(s),
    ensures
        trim(s) == s,
{
    assert(plain_char(s[0]));
    assert(plain_char(s[s.len() - 1]));
    lemma_trim_unchanged(s);
}

proof fn lemma_two_talents(t1: Seq<char>, t2: Seq<char>)
    requires
        plain_text(t1),
        plain_text(t2),
    ensures
        talent_list(t1 + seq!['、'] + t2) == seq![t1, t2],
{
    let k = talent_separators();
    assert forall|i: int| 0 <= i < t1.len() implies !k.has(#[trigger] t1[i]) by {
        assert(plain_char(t1[i]));
    }
    assert forall|i: int| 0 <= i < t2.len() implies !k.has(#[trigger] t2[i]) by {
        assert(plain_char(t2[i]));
    }
    let e = Seq::<char>::empty();
    lemma_split_append_plain(e, t1, k);
    assert(e + t1 =~= t1);
    assert(split(e, k) =~= seq![e]);
    assert(seq![e].update(0, e + t1) =~= seq![t1]);
    let a = t1.push('、');
    assert(a.drop_last() =~= t1);
    assert(split(a, k) =~= seq![t1, e]);
    lemma_split_append_plain(a, t2, k);
    assert(t1 + seq!['、'] + t2 =~= a + t2);
    assert(seq![t1, e].update(1, e + t2) =~= seq![t1, t2]);
    lemma_plain_trim(t1);
    lemma_plain_trim(t2);
    let pieces = seq![t1, t2].map_values(|t: Seq<char>| trim(t));
    assert(pieces =~= seq![t1, t2]);
    assert(pieces.drop_last() =~= seq![t1]);
    assert(seq![t1].drop_last() =~= Seq::<Seq<char>>::empty());
    assert(keep_nonempty(seq![t1]) == keep_nonempty(Seq::<Seq<char>>::empty()).push(t1));
    assert(keep_nonempty(Seq::<Seq<char>>::empty()).push(t1) =~= seq![t1]);
    assert(seq![t1].push(t2) =~= seq![t1, t2]);
}

proof fn lemma_talent_part(t1: Seq<char>, t2: Seq<char>)
    requires
        plain_text(t1),
        plain_text(t2),
    ensures
        talent_list(trim(t1 + seq!['、'] + t2)) == seq![t1, t2],
{
    let t = t1 + seq!['、'] + t2;
    assert(plain_char(t1[0]));
    assert(plain_char(t2[t2.len() - 1]));
    assert(t[0] == t1[0]);
    assert(t.last() == t2.last());
    lemma_trim_unchanged(t);
    lemma_two_talents(t1, t2);
}

/// What follows the point word of a selection line in the asked-for form,
/// once the colons, spaces and "放置" are taken off.
proof fn lemma_line_rest(name: Seq<char>, t1: Seq<char>, t2: Seq<char>)
    requires
        plain_text(name),
        plain_text(t2),
        name[0] != '放',
    ensures
        ({
            let body = name + seq!['：'] + t1 + seq!['、'] + t2;
            let r1 = seq!['：'] + body;
            let colons = Class::AnyOf(seq!['：', ':', ' ']);
            trim(trim_start_str(trim(trim_start(r1, colons)), place_word())) == body
        }),
{
    let c = seq!['：'];
    let body = name + c + t1 + seq!['、'] + t2;
    let r1 = c + body;
    let colons = Class::AnyOf(seq!['：', ':', ' ']);
    assert(r1.drop_first() =~= body);
    assert(plain_char(name[0]));
    assert(plain_char(t2[t2.len() - 1]));
    assert(body[0] == name[0]);
    assert(body.last() == t2.last());
    assert(colons.has(r1[0]));
    assert(!colons.has(body[0]));
    assert(trim_start(body, colons) == body);
    assert(trim_start(r1, colons) == body);
    lemma_trim_unchanged(body);
    assert(!starts_with(body, place_word())) by {
        if starts_with(body, place_word()) {
            assert(body.subrange(0, 2)[0] == body[0]);
        }
    }
    assert(trim_start_str(body, place_word()) == body);
}

proof fn lemma_name_colon(name: Seq<char>, t1: Seq<char>, t2: Seq<char>)
    requires
        plain_text(name),
    ensures
        ({
            let body = name + seq!['：'] + t1 + seq!['、'] + t2;
            &&& find(body, seq!['：']) == Some(name.len() as int)
            &&& body.take(name.len() as int) == name
            &&& body.skip(name.len() + 1int) == t1 + seq!['、'] + t2
        }),
{
    let c = seq!['：'];
    let rest = name + c + t1 + seq!['、'] + t2;
    let k = name.len() as int;
    lemma_find(rest, c);
    assert(rest.subrange(k, k + 1) =~= c);
    assert(matches_at(rest, c, k));
    assert forall|m: int| 0 <= m < k implies !#[trigger] matches_at(rest, c, m) by {
        assert(rest[m] == name[m]);
        assert(plain_char(name[m]));
        if matches_at(rest, c, m) {
            assert(rest.subrange(m, m + 1)[0] == rest[m]);
        }
    }
    assert(rest.take(k) =~= name);
    assert(rest.skip(k + 1) =~= t1 + seq!['、'] + t2);
}

proof fn lemma_line_head(n: u32, tail: Seq<char>)
    requires
        tail.len() > 0,
        plain_char(tail.last()),
    ensures
        ({
            let line = decimal(n as nat) + point_word() + tail;
            let l2 = trim_end(
                trim_end(trim(line), Class::AnyOf(seq!['。'])),
                Class::AnyOf(seq!['.']),
            );
            &&& l2 == line
            &&& find(l2, point_word()) == Some(decimal(n as nat).len() as int)
            &&& parse_u32(trim(l2.take(decimal(n as nat).len() as int))) == Some(n)
            &&& l2.skip(decimal(n as nat).len() + 3int) == tail
        }),
{
    let d = decimal(n as nat);
    lemma_decimal_digits(n as nat);
    let line = d + point_word() + tail;
    assert(line.last() == tail.last());
    assert(is_digit(d[0]));
    assert(line[0] == d[0]);
    lemma_trim_unchanged(line);
    assert(trim_end(line, Class::AnyOf(seq!['。'])) == line);
    assert(trim_end(line, Class::AnyOf(seq!['.'])) == line);
    assert(line.take(d.len() + 3int) =~= d + point_word());
    lemma_numbered_line_point(n, line);
    assert(line.skip(d.len() + 3int) =~= tail);
}

/// A selection line in the asked-for form reads as that selection: its
/// point is the whole number before "号选点", its survivor the name, its
/// talents the two listed, for every number and every name and talents
/// without white space, colons, separators or full stops (a name may not
/// open with "放", which the reading takes for "放置").
pub proof fn lemma_selection_line_reads_back(n: u32, name: Seq<char>, t1: Seq<char>, t2: Seq<char>)
    requires
        plain_text(name),
        plain_text(t1),
        plain_text(t2),
        name[0] != '放',
    ensures
        selection_line(selection_text(n, name, t1, t2)) == LineReading::Sel(
            SelectionView { point: n, character: name, talents: seq![t1, t2] },
        ),
{
    let c = seq!['：'];
    let body = name + c + t1 + seq!['、'] + t2;
    let tail = c + body;
    assert(selection_text(n, name, t1, t2) =~= decimal(n as nat) + point_word() + tail);
    assert(plain_char(t2[t2.len() - 1]));
    assert(tail.last() == t2.last());
    lemma_line_head(n, tail);
    lemma_line_rest(name, t1, t2);
    lemma_name_colon(name, t1, t2);
    lemma_plain_trim(name);
    lemma_talent_part(t1, t2);
}

// ============================================================ messages

/// How an error reads to a person (and to the model, when it is asked to
/// try again).
pub open spec fn error_text(e: ParseErrorView) -> Seq<char> {
    match e {
        ParseErrorView::NotEnoughPlans => "模型未返回任何有效方案"@,
        ParseErrorView::InvalidCharacter(n) => "角色「"@ + n + "」不存在"@,
        ParseErrorView::InvalidTalent(n) => "天赋「"@ + n + "」不存在"@,
        ParseErrorView::WrongTalentCount(c, n) => "角色「"@ + c + "」的天赋数量为 "@ + decimal(
            n as nat,
        ) + "，应为 2"@,
        ParseErrorView::PointOutOfRange(p, m) => "选点编号 "@ + decimal(p as nat) + " 超出地图范围（最大 "@
            + decimal(m as nat) + "）"@,
        ParseErrorView::DuplicatePoint(p) => "选点编号 "@ + decimal(p as nat) + " 重复"@,
        ParseErrorView::WrongCharacterCount(n) => "方案中角色数量为 "@ + decimal(n as nat)
            + "，应为 4"@,
        ParseErrorView::NoValidPlans => "无有效方案"@,
    }
}

fn decimal_string(n: u64) -> (r: String)
    ensures
        r@ == decimal(n as nat),
{
    from_chars(&decimal_v(n))
}

impl ParseError {
    /// The error as a sentence.
    pub fn message(&self) -> (r: String)
        ensures
            r@ == error_text(self@),
    {
        match self {
            ParseError::NotEnoughPlans => String::from_str("模型未返回任何有效方案"),
            ParseError::InvalidCharacter(n) => {
                let mut r = String::from_str("角色「");
                r.append(n.as_str());
                r.append("」不存在");
                r
            },
            ParseError::InvalidTalent(n) => {
                let mut r = String::from_str("天赋「");
                r.append(n.as_str());
                r.append("」不存在");
                r
            },
            ParseError::WrongTalentCount(c, n) => {
                let mut r = String::from_str("角色「");
                r.append(c.as_str());
                r.append("」的天赋数量为 ");
                r.append(decimal_string(*n as u64).as_str());
                r.append("，应为 2");
                r
            },
            ParseError::PointOutOfRange(p, m) => {
                let mut r = String::from_str("选点编号 ");
                r.append(decimal_string(*p as u64).as_str());
                r.append(" 超出地图范围（最大 ");
                r.append(decimal_string(*m as u64).as_str());
                r.append("）");
                r
            },
            ParseError::DuplicatePoint(p) => {
                let mut r = String::from_str("选点编号 ");
                r.append(decimal_string(*p as u64).as_str());
                r.append(" 重复");
                r
            },
            ParseError::WrongCharacterCount(n) => {
                let mut r = String::from_str("方案中角色数量为 ");
                r.append(decimal_string(*n as u64).as_str());
                r.append("，应为 4");
                r
            },
            ParseError::NoValidPlans => String::from_str("无有效方案"),
        }
    }
}

} // verus!
