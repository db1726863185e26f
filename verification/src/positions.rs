//! A map's point data: the map's size, the size of a character icon, and the
//! centre of each numbered point, read from the map's position notes.
use vstd::prelude::*;
use crate::text::{
    contains, contains_v, copy_range, find, find_v, lemma_find, lines, lines_v, matches_at,
    parse_u32, parse_u32_v, replace, replace_v, rfind, rfind_v, split, split_v, starts_with,
    starts_with_v, trim, trim_both, trim_both_v, trim_start, trim_start_v, trim_v, views,
    from_chars, to_chars, CharSet, Class,
};

verus! {

#[derive(Clone, Debug)]
pub struct MapPosition {
    pub zh: String,
    pub map_width: u32,
    pub map_height: u32,
    pub points: Vec<(u32, u32, u32)>,
    pub icon_size: u32,
}

/// The notes hold no point centre.
#[derive(Debug, PartialEq, Eq)]
pub enum PositionError {
    NoPoints,
}

// --------------------------------------------------------------- patterns

/// "像素": "pixels".
pub open spec fn pixel_word() -> Seq<char> {
    seq!['像', '素']
}

/// "为": "is", before a map's dimensions.
pub open spec fn is_word() -> Seq<char> {
    seq!['为']
}

/// "角色图标": "character icon".
pub open spec fn icon_word() -> Seq<char> {
    seq!['角', '色', '图', '标']
}

/// The LaTeX times sign.
pub open spec fn latex_times() -> Seq<char> {
    seq!['\\', 't', 'i', 'm', 'e', 's']
}

/// "号选点中心": "centre of point number …".
pub open spec fn centre_word() -> Seq<char> {
    seq!['号', '选', '点', '中', '心']
}

pub open spec fn point_word() -> Seq<char> {
    seq!['号', '选', '点']
}

pub open spec fn dim_separators() -> Class {
    Class::AnyOf(seq!['×', 'x', '*'])
}

/// The text before the first `p` (the first piece of `split(p)`).
pub open spec fn before_first(s: Seq<char>, p: Seq<char>) -> Seq<char> {
    match find(s, p) {
        Some(i) => s.take(i),
        None => s,
    }
}

/// The text after the last `p` (the first piece of `rsplit(p)`).
pub open spec fn after_last(s: Seq<char>, p: Seq<char>) -> Seq<char> {
    match rfind(s, p) {
        Some(i) => s.skip(i + p.len()),
        None => s,
    }
}

/// The numbers among the pieces, in order.
pub open spec fn numbers_of(pieces: Seq<Seq<char>>, icon: bool) -> Seq<u32>
    decreases pieces.len(),
{
    if pieces.len() == 0 {
        Seq::empty()
    } else {
        let rest = numbers_of(pieces.drop_last(), icon);
        match parse_u32(clean_number(pieces.last(), icon)) {
            Some(n) => rest.push(n),
            None => rest,
        }
    }
}

/// A dimension piece stripped of space, `$` and parentheses (the icon line
/// trims space once more between the `$` and the parentheses).
pub open spec fn clean_number(p: Seq<char>, icon: bool) -> Seq<char> {
    let a = trim_both(trim(p), Class::AnyOf(seq!['$']));
    let b = if icon {
        trim(a)
    } else {
        a
    };
    trim(trim_both(b, Class::AnyOf(seq!['(', ')'])))
}

/// The numbers in a line's text before "像素", with `\times` read as `×`.
pub open spec fn dimension_numbers(front: Seq<char>, icon: bool) -> Seq<u32> {
    numbers_of(split(replace(front, latex_times(), seq!['×']), dim_separators()), icon)
}

/// A map-size line: the first two numbers after the last "为" and before "像素".
pub open spec fn parse_dims(s: Seq<char>) -> Option<(u32, u32)> {
    let s1 = trim(trim_start(s, Class::AnyOf(seq!['#'])));
    let front = after_last(before_first(s1, pixel_word()), is_word());
    let nums = dimension_numbers(front, false);
    if nums.len() >= 2 {
        Some((nums[0], nums[1]))
    } else {
        None
    }
}

/// An icon-size line: the first number before "像素".
pub open spec fn parse_icon_size(s: Seq<char>) -> Option<u32> {
    if !contains(s, icon_word()) {
        None
    } else {
        let nums = dimension_numbers(before_first(s, pixel_word()), true);
        if nums.len() > 0 {
            Some(nums[0])
        } else {
            None
        }
    }
}

/// A point line "N 号选点中心 … $(x, y)$": the number and the centre.
pub open spec fn parse_point_line(line: Seq<char>) -> Option<(u32, u32, u32)> {
    match find(line, point_word()) {
        None => None,
        Some(ne) => match parse_u32(trim(line.take(ne))) {
            None => None,
            Some(num) => match find(line, seq!['$', '(']) {
                None => None,
                Some(cs) => match find(line.skip(cs), seq![')', '$']) {
                    None => None,
                    Some(ce) => {
                        let parts = split(line.subrange(cs + 2, cs + ce), Class::AnyOf(seq![',']));
                        if parts.len() < 2 {
                            None
                        } else {
                            match (parse_u32(trim(parts[0])), parse_u32(trim(parts[1]))) {
                                (Some(x), Some(y)) => Some((num, x, y)),
                                _ => None,
                            }
                        }
                    },
                },
            },
        },
    }
}

pub struct PosState {
    pub zh: Seq<char>,
    pub map_width: u32,
    pub map_height: u32,
    pub points: Seq<(u32, u32, u32)>,
    pub icon_size: u32,
}

/// A line that gives a size in pixels.
pub open spec fn is_size_line(line: Seq<char>) -> bool {
    contains(line, pixel_word()) && (contains(line, seq!['×']) || contains(line, latex_times()))
}

pub open spec fn pos_step(st: PosState, raw_line: Seq<char>) -> PosState {
    let line = trim(raw_line);
    let st1 = if starts_with(line, seq!['#', '#', ' ']) {
        PosState { zh: trim(trim_start(line, Class::AnyOf(seq!['#']))), ..st }
    } else {
        st
    };
    let st2 = if is_size_line(line) {
        let s = trim(trim_start(line, Class::AnyOf(seq!['#'])));
        if contains(s, icon_word()) {
            match parse_icon_size(s) {
                Some(sz) => PosState { icon_size: sz, ..st1 },
                None => st1,
            }
        } else {
            match parse_dims(s) {
                Some((w, h)) => PosState { map_width: w, map_height: h, ..st1 },
                None => st1,
            }
        }
    } else {
        st1
    };
    if contains(line, centre_word()) {
        match parse_point_line(line) {
            Some(p) => PosState { points: st2.points.push(p), ..st2 },
            None => st2,
        }
    } else {
        st2
    }
}

pub open spec fn pos_fold(ls: Seq<Seq<char>>) -> PosState
    decreases ls.len(),
{
    if ls.len() == 0 {
        PosState {
            zh: Seq::empty(),
            map_width: 0,
            map_height: 0,
            points: Seq::empty(),
            icon_size: 0,
        }
    } else {
        pos_step(pos_fold(ls.drop_last()), ls.last())
    }
}

/// The icon size when the notes give none: a seventh of the map's width but
/// at least 60, or 100 when the width is unknown.
pub open spec fn default_icon_size(map_width: u32) -> u32 {
    if map_width > 0 {
        if map_width / 7 >= 60 {
            (map_width / 7) as u32
        } else {
            60
        }
    } else {
        100
    }
}

pub struct MapPositionView {
    pub zh: Seq<char>,
    pub map_width: u32,
    pub map_height: u32,
    pub points: Seq<(u32, u32, u32)>,
    pub icon_size: u32,
}

impl View for MapPosition {
    type V = MapPositionView;

    open spec fn view(&self) -> MapPositionView {
        MapPositionView {
            zh: self.zh@,
            map_width: self.map_width,
            map_height: self.map_height,
            points: self.points@,
            icon_size: self.icon_size,
        }
    }
}

/// What the position notes `text` of the map file named `stem` describe.
pub open spec fn read_positions(text: Seq<char>, stem: Seq<char>) -> Option<MapPositionView> {
    let st = pos_fold(lines(text));
    if st.points.len() == 0 {
        None
    } else {
        Some(
            MapPositionView {
                zh: if st.zh.len() == 0 {
                    stem
                } else {
                    st.zh
                },
                map_width: st.map_width,
                map_height: st.map_height,
                points: st.points,
                icon_size: if st.icon_size == 0 {
                    default_icon_size(st.map_width)
                } else {
                    st.icon_size
                },
            },
        )
    }
}

/// The highest point number, 0 when there is no point.
pub open spec fn highest_point(points: Seq<(u32, u32, u32)>) -> u32
    decreases points.len(),
{
    if points.len() == 0 {
        0
    } else {
        let m = highest_point(points.drop_last());
        if points.last().0 > m {
            points.last().0
        } else {
            m
        }
    }
}

/// The first point numbered `num`.
pub open spec fn first_point(points: Seq<(u32, u32, u32)>, num: u32, i: int) -> Option<int>
    decreases points.len() - i,
{
    if i < 0 || i >= points.len() {
        None
    } else if points[i].0 == num {
        Some(i)
    } else {
        first_point(points, num, i + 1)
    }
}


// ================================================================ exec

fn before_first_v(s: &Vec<char>, p: &Vec<char>) -> (r: Vec<char>)
    ensures
        r@ == before_first(s@, p@),
{
    match find_v(s, p) {
        Some(i) => {
            proof {
                lemma_find(s@, p@);
            }
            let r = copy_range(s, 0, i);
            assert(r@ =~= s@.take(i as int));
            r
        },
        None => copy_range(s, 0, s.len()),
    }
}

fn after_last_v(s: &Vec<char>, p: &Vec<char>) -> (r: Vec<char>)
    ensures
        r@ == after_last(s@, p@),
{
    match rfind_v(s, p) {
        Some(i) => {
            proof {
                lemma_rfind_in_range(s@, p@, s@.len() - p@.len());
                assert(matches_at(s@, p@, i as int));
            }
            assert(i + p.len() <= s.len());
            let r = copy_range(s, i + p.len(), s.len());
            assert(r@ =~= s@.skip(i + p.len()));
            r
        },
        None => copy_range(s, 0, s.len()),
    }
}

proof fn lemma_rfind_in_range(s: Seq<char>, p: Seq<char>, i: int)
    ensures
        crate::text::rfind_from(s, p, i) matches Some(j) ==> matches_at(s, p, j),
    decreases i + 1,
{
    if i >= 0 {
        lemma_rfind_in_range(s, p, i - 1);
    }
}

fn clean_number_v(p: &Vec<char>, icon: bool) -> (r: Vec<char>)
    ensures
        r@ == clean_number(p@, icon),
{
    let dollar = CharSet::any_of(vec!['$']);
    assert(dollar.chars@ =~= seq!['$']);
    let parens = CharSet::any_of(vec!['(', ')']);
    assert(parens.chars@ =~= seq!['(', ')']);
    let a = trim_both_v(&trim_v(p), &dollar);
    let b = if icon {
        trim_v(&a)
    } else {
        a
    };
    trim_v(&trim_both_v(&b, &parens))
}

fn dimension_numbers_v(front: &Vec<char>, icon: bool) -> (r: Vec<u32>)
    ensures
        r@ == dimension_numbers(front@, icon),
{
    let times = vec!['\\', 't', 'i', 'm', 'e', 's'];
    assert(times@ =~= latex_times());
    let cross = vec!['×'];
    assert(cross@ =~= seq!['×']);
    let replaced = replace_v(front, &times, &cross);
    let seps = CharSet::any_of(vec!['×', 'x', '*']);
    assert(seps.chars@ =~= seq!['×', 'x', '*']);
    let pieces = split_v(&replaced, &seps);
    let ghost pv = views(pieces@);
    let mut out: Vec<u32> = Vec::new();
    let mut i: usize = 0;
    assert(pv.take(0) =~= Seq::<Seq<char>>::empty());
    while i < pieces.len()
        invariant
            i <= pieces.len(),
            pv == views(pieces@),
            out@ == numbers_of(pv.take(i as int), icon),
        decreases pieces.len() - i,
    {
        assert(pv.take(i + 1).drop_last() =~= pv.take(i as int));
        assert(pv.take(i + 1).last() == pieces@[i as int]@);
        match parse_u32_v(&clean_number_v(&pieces[i], icon)) {
            Some(n) => {
                out.push(n);
            },
            None => {},
        }
        i = i + 1;
    }
    assert(pv.take(pieces.len() as int) =~= pv);
    out
}

fn pixel_word_v() -> (r: Vec<char>)
    ensures
        r@ == pixel_word(),
{
    let r = vec!['像', '素'];
    assert(r@ =~= pixel_word());
    r
}

fn icon_word_v() -> (r: Vec<char>)
    ensures
        r@ == icon_word(),
{
    let r = vec!['角', '色', '图', '标'];
    assert(r@ =~= icon_word());
    r
}

fn hash_set() -> (r: CharSet)
    ensures
        r@ == Class::AnyOf(seq!['#']),
{
    let r = CharSet::any_of(vec!['#']);
    assert(r.chars@ =~= seq!['#']);
    r
}

/// The map size a size line gives.
pub fn parse_dims_v(s: &Vec<char>) -> (r: Option<(u32, u32)>)
    ensures
        r == parse_dims(s@),
{
    let s1 = trim_v(&trim_start_v(s, &hash_set()));
    let w = vec!['为'];
    assert(w@ =~= is_word());
    let front = after_last_v(&before_first_v(&s1, &pixel_word_v()), &w);
    let nums = dimension_numbers_v(&front, false);
    if nums.len() >= 2 {
        Some((nums[0], nums[1]))
    } else {
        None
    }
}

/// The icon size an icon-size line gives.
pub fn parse_icon_size_v(s: &Vec<char>) -> (r: Option<u32>)
    ensures
        r == parse_icon_size(s@),
{
    if !contains_v(s, &icon_word_v()) {
        return None;
    }
    let nums = dimension_numbers_v(&before_first_v(s, &pixel_word_v()), true);
    if nums.len() > 0 {
        Some(nums[0])
    } else {
        None
    }
}

/// The number and centre a point line gives.
pub fn parse_point_line_v(line: &Vec<char>) -> (r: Option<(u32, u32, u32)>)
    ensures
        r == parse_point_line(line@),
{
    let pw = vec!['号', '选', '点'];
    assert(pw@ =~= point_word());
    let ne = match find_v(line, &pw) {
        None => {
            return None;
        },
        Some(ne) => ne,
    };
    proof {
        lemma_find(line@, pw@);
        assert(matches_at(line@, pw@, ne as int));
    }
    assert(ne <= line.len());
    let head = copy_range(line, 0, ne);
    assert(head@ =~= line@.take(ne as int));
    let num = match parse_u32_v(&trim_v(&head)) {
        None => {
            return None;
        },
        Some(n) => n,
    };
    let open = vec!['$', '('];
    assert(open@ =~= seq!['$', '(']);
    let cs = match find_v(line, &open) {
        None => {
            return None;
        },
        Some(cs) => cs,
    };
    proof {
        lemma_find(line@, open@);
        assert(matches_at(line@, open@, cs as int));
        assert(line@.subrange(cs as int, cs + 2)[0] == '$');
        assert(line@.subrange(cs as int, cs + 2)[1] == '(');
    }
    assert(cs + 2 <= line.len());
    let tail = copy_range(line, cs, line.len());
    assert(tail@ =~= line@.skip(cs as int));
    let close = vec![')', '$'];
    assert(close@ =~= seq![')', '$']);
    let ce = match find_v(&tail, &close) {
        None => {
            return None;
        },
        Some(ce) => ce,
    };
    proof {
        lemma_find(tail@, close@);
        assert(matches_at(tail@, close@, ce as int));
        assert(tail@.subrange(ce as int, ce + 2)[0] == ')');
        assert(tail@[0] == '$');
        assert(tail@[1] == '(');
    }
    assert(ce >= 2);
    let coord = copy_range(line, cs + 2, cs + ce);
    let comma = CharSet::any_of(vec![',']);
    assert(comma.chars@ =~= seq![',']);
    let parts = split_v(&coord, &comma);
    if parts.len() < 2 {
        return None;
    }
    let x = parse_u32_v(&trim_v(&parts[0]));
    let y = parse_u32_v(&trim_v(&parts[1]));
    match (x, y) {
        (Some(x), Some(y)) => Some((num, x, y)),
        _ => None,
    }
}

impl MapPosition {
    /// The positions that the notes `text` of the map file named `stem`
    /// describe; an error when they hold no point centre.
    pub fn from_text(text: &str, stem: &str) -> (r: Result<MapPosition, PositionError>)
        ensures
            match read_positions(text@, stem@) {
                Some(v) => r matches Ok(m) && m@ == v,
                None => r == Err::<MapPosition, PositionError>(PositionError::NoPoints),
            },
    {
        let ls = lines_v(&to_chars(text));
        let header = vec!['#', '#', ' '];
        assert(header@ =~= seq!['#', '#', ' ']);
        let cross = vec!['×'];
        assert(cross@ =~= seq!['×']);
        let times = vec!['\\', 't', 'i', 'm', 'e', 's'];
        assert(times@ =~= latex_times());
        let centre = vec!['号', '选', '点', '中', '心'];
        assert(centre@ =~= centre_word());
        let pixel = pixel_word_v();
        let icon = icon_word_v();
        let hash = hash_set();
        let mut zh: Vec<char> = Vec::new();
        let mut map_width: u32 = 0;
        let mut map_height: u32 = 0;
        let mut points: Vec<(u32, u32, u32)> = Vec::new();
        let mut icon_size: u32 = 0;
        let mut i: usize = 0;
        let ghost lv = views(ls@);
        assert(lv.take(0) =~= Seq::<Seq<char>>::empty());
        while i < ls.len()
            invariant
                i <= ls.len(),
                lv == views(ls@),
                lv == lines(text@),
                header@ == seq!['#', '#', ' '],
                cross@ == seq!['×'],
                times@ == latex_times(),
                centre@ == centre_word(),
                pixel@ == pixel_word(),
                icon@ == icon_word(),
                hash@ == Class::AnyOf(seq!['#']),
                pos_fold(lv.take(i as int)) == (PosState {
                    zh: zh@,
                    map_width,
                    map_height,
                    points: points@,
                    icon_size,
                }),
            decreases ls.len() - i,
        {
            assert(lv.take(i + 1).drop_last() =~= lv.take(i as int));
            assert(lv.take(i + 1).last() == ls@[i as int]@);
            let line = trim_v(&ls[i]);
            if starts_with_v(&line, &header) {
                zh = trim_v(&trim_start_v(&line, &hash));
            }
            if contains_v(&line, &pixel) && (contains_v(&line, &cross) || contains_v(
                &line,
                &times,
            )) {
                let s1 = trim_v(&trim_start_v(&line, &hash));
                if contains_v(&s1, &icon) {
                    match parse_icon_size_v(&s1) {
                        Some(sz) => {
                            icon_size = sz;
                        },
                        None => {},
                    }
                } else {
                    match parse_dims_v(&s1) {
                        Some((w, h)) => {
                            map_width = w;
                            map_height = h;
                        },
                        None => {},
                    }
                }
            }
            if contains_v(&line, &centre) {
                match parse_point_line_v(&line) {
                    Some(p) => {
                        points.push(p);
                    },
                    None => {},
                }
            }
            i = i + 1;
        }
        assert(lv.take(ls.len() as int) =~= lv);
        if points.len() == 0 {
            return Err(PositionError::NoPoints);
        }
        let name = if zh.len() == 0 {
            String::from_str(stem)
        } else {
            from_chars(&zh)
        };
        if icon_size == 0 {
            icon_size = if map_width > 0 {
                if map_width / 7 >= 60 {
                    map_width / 7
                } else {
                    60
                }
            } else {
                100
            };
        }
        Ok(MapPosition { zh: name, map_width, map_height, points, icon_size })
    }

    /// The highest point number, 0 when there is none.
    pub fn max_point(&self) -> (r: u32)
        ensures
            r == highest_point(self.points@),
    {
        let mut m: u32 = 0;
        let mut i: usize = 0;
        assert(self.points@.take(0) =~= Seq::<(u32, u32, u32)>::empty());
        while i < self.points.len()
            invariant
                i <= self.points.len(),
                m == highest_point(self.points@.take(i as int)),
            decreases self.points.len() - i,
        {
            assert(self.points@.take(i + 1).drop_last() =~= self.points@.take(i as int));
            let n = self.points[i].0;
            if n > m {
                m = n;
            }
            i = i + 1;
        }
        assert(self.points@.take(self.points.len() as int) =~= self.points@);
        m
    }

    /// The centre of the first point numbered `num`.
    pub fn point_center(&self, num: u32) -> (r: Option<(u32, u32)>)
        ensures
            match first_point(self.points@, num, 0) {
                Some(i) => r == Some((self.points@[i].1, self.points@[i].2)),
                None => r is None,
            },
    {
        let mut i: usize = 0;
        while i < self.points.len()
            invariant
                i <= self.points.len(),
                first_point(self.points@, num, 0) == first_point(self.points@, num, i as int),
            decreases self.points.len() - i,
        {
            if self.points[i].0 == num {
                return Some((self.points[i].1, self.points[i].2));
            }
            i = i + 1;
        }
        None
    }
}


/// The highest point a plan may name when its map's point notes give none:
/// twelve.
pub open spec fn default_point_limit() -> u32 {
    12
}

/// The highest point a plan may name: the highest point of the map's notes
/// when they could be read, else twelve.
pub fn point_limit(positions: Option<&MapPosition>) -> (r: u32)
    ensures
        r == match positions {
            Some(p) => highest_point(p.points@),
            None => default_point_limit(),
        },
{
    match positions {
        Some(p) => p.max_point(),
        None => 12,
    }
}

// ================================================================= laws

/// The lines of the notes keep the two sizes apart: a size line that names
/// the character icon sets at most the icon size, any other line at most
/// the map's size; and each line only adds points after those read before.
pub proof fn lemma_size_lines_apart(st: PosState, raw_line: Seq<char>)
    ensures
        ({
            let n = pos_step(st, raw_line);
            let s = trim(trim_start(trim(raw_line), Class::AnyOf(seq!['#'])));
            &&& contains(s, icon_word()) ==> n.map_width == st.map_width && n.map_height
                == st.map_height
            &&& !contains(s, icon_word()) ==> n.icon_size == st.icon_size
            &&& n.points.len() >= st.points.len()
            &&& n.points.take(st.points.len() as int) == st.points
        }),
{
    let n = pos_step(st, raw_line);
    if n.points.len() > st.points.len() {
        assert(n.points.take(st.points.len() as int) =~= st.points);
    } else {
        assert(st.points.take(st.points.len() as int) =~= st.points);
    }
}

/// The highest point number is at least every point's number and, when
/// there is a point, is one of them.
pub proof fn lemma_highest_point(points: Seq<(u32, u32, u32)>)
    ensures
        forall|i: int| 0 <= i < points.len() ==> (#[trigger] points[i]).0 <= highest_point(points),
        points.len() > 0 ==> exists|i: int|
            0 <= i < points.len() && (#[trigger] points[i]).0 == highest_point(points),
    decreases points.len(),
{
    if points.len() > 0 {
        let prev = points.drop_last();
        lemma_highest_point(prev);
        assert forall|i: int| 0 <= i < points.len() implies (#[trigger] points[i]).0
            <= highest_point(points) by {
            if i < prev.len() {
                assert(prev[i] == points[i]);
            }
        }
        if points.last().0 > highest_point(prev) {
            assert(points[points.len() - 1].0 == highest_point(points));
        } else if prev.len() == 0 {
            assert(points[0].0 == highest_point(points));
        } else {
            let j = choose|j: int| 0 <= j < prev.len() && (#[trigger] prev[j]).0 == highest_point(prev);
            assert(prev[j] == points[j]);
        }
    }
}

/// A point number has a centre exactly when some point carries it, and the
/// centre is that of its first point.
pub proof fn lemma_first_point(points: Seq<(u32, u32, u32)>, num: u32, i: int)
    requires
        0 <= i,
    ensures
        first_point(points, num, i) matches Some(j) ==> i <= j < points.len() && points[j].0
            == num && forall|k: int| i <= k < j ==> (#[trigger] points[k]).0 != num,
        first_point(points, num, i) is None ==> forall|k: int|
            i <= k < points.len() ==> (#[trigger] points[k]).0 != num,
    decreases points.len() - i,
{
    if i < points.len() {
        lemma_first_point(points, num, i + 1);
    }
}

} // verus!
