//! The texts sent to the model: the system prompt, and the request for one
//! round in its full and its compact form.
use vstd::prelude::*;
use crate::checker::Entry;
use crate::text::{
    decimal, decimal_v, ends_with, join, matches_at, starts_with, to_chars, trim, trim_v, from_chars,
};

verus! {

/// The opening of the system prompt, up to the task description.
pub const SYSTEM_INTRO: &'static str = "你是 IDV-ASAS（《第五人格》区域选择辅助系统）的分析核心。\n\n\
# 你的任务\n\n";

/// From after the task description to the dictionary: the output rules, with a sample plan.
pub const SYSTEM_AFTER_TASK: &'static str = "\n\n\
# 输出要求\n\n\
- 给出 2 到 3 套天赋选择以及区域选择，按推荐程度由高到低排列。\n\
- 每套方案仅包含三部分：方案编号、四名求生者的选点与天赋、该选点的具体描述及分析，不要输出任何前言、思考推理过程、总结或额外说明。\n\
- 每套方案严格遵循以下格式（示例）：\n\n\
方案 1：\n\
5 号选点：佣兵：回光返照、化险为夷\n\
2 号选点：古董商：回光返照、飞轮效应\n\
6 号选点：作曲家：回光返照、膝跳反射\n\
8 号选点：空军：回光返照、化险为夷\n\
具体描述及分析：前锋利用中场板窗承担抗压牵制，医生置于安全的小树林稳定破译，园丁与祭司分别负责大房与沙包的分工运营，整体抗压与分工均衡。\n\n\
- 选点行严格写作\"x 号选点：<求生者名称>：<具体天赋选择>\"，禁止在选点后附加括号、俗称或任何其他说明。这样的行共四行，覆盖四名求生者，四人选点不得重复。\n\
- 除非用户特别说明，否则禁止选择地图数据推荐列表之外的选点模式，也不得选择地图禁区中的点位。\n\
- 用户需求高于一切：若用户需求与数据有差异，以用户需求为准。\n\
- 具体描述及分析部分为不多于 100 字的流利中文，重点介绍抗压与分工，不需要过多介绍推荐理由，禁止出现\"x 号选点\"这类编号说法而应该采用俗称。\n\
- 全部使用中文回答。\n\n\
# 角色与地图字典\n\n";

/// From after the dictionary to the general notes.
pub const SYSTEM_AFTER_DICTIONARY: &'static str = "\n\n\
# 数据库通用资料\n\n\
## 求生者与队伍总纲\n\n";

/// From after the general notes to the notes on talents and characters.
pub const SYSTEM_AFTER_GENERAL: &'static str = "\n\n\
## 天赋与角色说明\n\n";

/// From after the character notes to the notes on maps and points.
pub const SYSTEM_AFTER_CHARACTERS: &'static str = "\n\n\
## 地图与选点说明\n\n";

/// The closing of the system prompt: how its point-naming rule applies.
pub const SYSTEM_CLOSING: &'static str = "\n\n\
# 重要覆盖说明\n\n\
上述资料中提到\"禁止称呼 x 号选点、应采用俗称\"是面向玩家交互的惯例，**不适用于本系统的输出格式**。本系统选点行一律使用编号（如 5 号选点），禁止附加俗称；仅在\"具体描述及分析\"部分使用俗称。\n";

/// The round's inputs.
pub struct RoundSpec<'a> {
    pub index: usize,
    pub map: &'a Entry,
    pub survivors: Vec<&'a Entry>,
    pub global_req: &'a str,
    pub round_req: &'a str,
}

/// The system prompt around the five documents it quotes.
pub open spec fn system_text(
    agents: Seq<char>,
    general: Seq<char>,
    chars_guide: Seq<char>,
    maps_guide: Seq<char>,
    dict: Seq<char>,
) -> Seq<char> {
    SYSTEM_INTRO@ + agents + SYSTEM_AFTER_TASK@ + dict + SYSTEM_AFTER_DICTIONARY@ + general
        + SYSTEM_AFTER_GENERAL@ + chars_guide + SYSTEM_AFTER_CHARACTERS@ + maps_guide
        + SYSTEM_CLOSING@
}

/// A requirement as the request shows it: trimmed, or "（无）" when blank.
pub open spec fn requirement_text(s: Seq<char>) -> Seq<char> {
    if trim(s).len() == 0 {
        "（无）"@
    } else {
        trim(s)
    }
}

pub open spec fn survivor_names(es: Seq<&Entry>) -> Seq<Seq<char>> {
    es.map_values(|e: &Entry| e.zh@)
}

/// The compact request of a round: its number, map, survivors and the two
/// requirements, without the data files.
pub open spec fn compact_text(
    index: usize,
    map_zh: Seq<char>,
    names: Seq<Seq<char>>,
    global_req: Seq<char>,
    round_req: Seq<char>,
) -> Seq<char> {
    "【第 "@ + decimal(index as nat) + " 局】\n地图："@ + map_zh + "\n求生者："@ + join(
        names,
        seq!['、'],
    ) + "\n全局需求："@ + requirement_text(global_req) + "\n本局需求："@ + requirement_text(
        round_req,
    ) + "\n（该局地图与角色详细资料此处从略）"@
}

/// The data files of the round's survivors, each under its heading.
pub open spec fn survivor_sections(names: Seq<Seq<char>>, data: Seq<Seq<char>>) -> Seq<char>
    decreases names.len(),
{
    if names.len() == 0 || data.len() == 0 {
        Seq::empty()
    } else {
        survivor_sections(names.drop_last(), data.drop_last()) + "\n\n【角色资料："@
            + names.last() + "】\n"@ + data.last()
    }
}

/// The full request of a round: the compact request, then the map's data
/// file and each survivor's.
pub open spec fn full_text(
    compact: Seq<char>,
    map_zh: Seq<char>,
    map_data: Seq<char>,
    sections: Seq<char>,
) -> Seq<char> {
    compact
        + "\n（以上为本局全部输入。此前的历史局记录见对话上文，其方案结果仅供参考，全局需求对每一局均生效。）\n\n【本局地图资料："@
        + map_zh + "】\n"@ + map_data + sections
        + "\n\n请结合以上资料与全部需求，给出 2~3 套天赋选择与区域选择方案。"@
}

pub open spec fn string_seqs(v: Seq<String>) -> Seq<Seq<char>> {
    v.map_values(|s: String| s@)
}

/// The system prompt built around the task description (`AGENTS.md`), the
/// general notes, the notes on characters and on maps, and the dictionary.
pub fn system_prompt(
    agents: &str,
    general: &str,
    chars_guide: &str,
    maps_guide: &str,
    dict: &str,
) -> (r: String)
    ensures
        r@ == system_text(agents@, general@, chars_guide@, maps_guide@, dict@),
{
    let mut r = String::from_str(SYSTEM_INTRO);
    r.append(agents);
    r.append(SYSTEM_AFTER_TASK);
    r.append(dict);
    r.append(SYSTEM_AFTER_DICTIONARY);
    r.append(general);
    r.append(SYSTEM_AFTER_GENERAL);
    r.append(chars_guide);
    r.append(SYSTEM_AFTER_CHARACTERS);
    r.append(maps_guide);
    r.append(SYSTEM_CLOSING);
    r
}

/// A requirement as the request shows it.
pub fn fmt_req(s: &str) -> (r: String)
    ensures
        r@ == requirement_text(s@),
{
    let t = trim_v(&to_chars(s));
    if t.len() == 0 {
        String::from_str("（无）")
    } else {
        from_chars(&t)
    }
}

/// The compact request of a round.
pub fn compact_request(spec: &RoundSpec) -> (r: String)
    ensures
        r@ == compact_text(
            spec.index,
            spec.map.zh@,
            survivor_names(spec.survivors@),
            spec.global_req@,
            spec.round_req@,
        ),
{
    let mut r = String::from_str("【第 ");
    let num = from_chars(&decimal_v(spec.index as u64));
    r.append(num.as_str());
    r.append(" 局】\n地图：");
    r.append(spec.map.zh.as_str());
    r.append("\n求生者：");
    let names = names_joined(&spec.survivors);
    r.append(names.as_str());
    r.append("\n全局需求：");
    let g = fmt_req(spec.global_req);
    r.append(g.as_str());
    r.append("\n本局需求：");
    let q = fmt_req(spec.round_req);
    r.append(q.as_str());
    r.append("\n（该局地图与角色详细资料此处从略）");
    r
}

fn names_joined(es: &Vec<&Entry>) -> (r: String)
    ensures
        r@ == join(survivor_names(es@), seq!['、']),
{
    let mut out = String::new();
    let mut i: usize = 0;
    let sep = String::from_str("、");
    proof {
        reveal_strlit("、");
    }
    assert(sep@ =~= seq!['、']);
    while i < es.len()
        invariant
            i <= es.len(),
            sep@ == seq!['、'],
            out@ == join(survivor_names(es@.take(i as int)), seq!['、']),
        decreases es.len() - i,
    {
        let ghost names = survivor_names(es@.take(i + 1));
        assert(names.drop_last() =~= survivor_names(es@.take(i as int)));
        assert(names.last() == es@[i as int].zh@);
        if i > 0 {
            out.append(sep.as_str());
        }
        out.append(es[i].zh.as_str());
        i = i + 1;
        assert(out@ =~= join(survivor_names(es@.take(i as int)), seq!['、']));
    }
    assert(es@.take(es.len() as int) =~= es@);
    out
}

/// The full request of a round, given the text of the map's data file and
/// of each survivor's, in the order of `spec.survivors`.
pub fn full_request(spec: &RoundSpec, map_data: &str, survivor_data: &Vec<String>) -> (r: String)
    requires
        survivor_data.len() == spec.survivors.len(),
    ensures
        r@ == full_text(
            compact_text(
                spec.index,
                spec.map.zh@,
                survivor_names(spec.survivors@),
                spec.global_req@,
                spec.round_req@,
            ),
            spec.map.zh@,
            map_data@,
            survivor_sections(survivor_names(spec.survivors@), string_seqs(survivor_data@)),
        ),
{
    let mut sections = String::new();
    let mut i: usize = 0;
    let ghost names = survivor_names(spec.survivors@);
    let ghost data = string_seqs(survivor_data@);
    assert(names.take(0) =~= Seq::<Seq<char>>::empty());
    while i < survivor_data.len()
        invariant
            i <= survivor_data.len() == spec.survivors.len(),
            names == survivor_names(spec.survivors@),
            data == string_seqs(survivor_data@),
            sections@ == survivor_sections(names.take(i as int), data.take(i as int)),
        decreases survivor_data.len() - i,
    {
        assert(names.take(i + 1).drop_last() =~= names.take(i as int));
        assert(data.take(i + 1).drop_last() =~= data.take(i as int));
        assert(names.take(i + 1).last() == spec.survivors@[i as int].zh@);
        assert(data.take(i + 1).last() == survivor_data@[i as int]@);
        sections.append("\n\n【角色资料：");
        sections.append(spec.survivors[i].zh.as_str());
        sections.append("】\n");
        sections.append(survivor_data[i].as_str());
        i = i + 1;
    }
    assert(names.take(i as int) =~= names);
    assert(data.take(i as int) =~= data);
    let mut r = compact_request(spec);
    r.append(
        "\n（以上为本局全部输入。此前的历史局记录见对话上文，其方案结果仅供参考，全局需求对每一局均生效。）\n\n【本局地图资料：",
    );
    r.append(spec.map.zh.as_str());
    r.append("】\n");
    r.append(map_data);
    r.append(sections.as_str());
    r.append("\n\n请结合以上资料与全部需求，给出 2~3 套天赋选择与区域选择方案。");
    r
}

// ================================================================= laws

/// The section a survivor's data file makes in the full request.
pub open spec fn section_of(name: Seq<char>, data: Seq<char>) -> Seq<char> {
    "\n\n【角色资料："@ + name + "】\n"@ + data
}

/// The length of the sections of the first `i` survivors.
pub open spec fn sections_len(names: Seq<Seq<char>>, data: Seq<Seq<char>>, i: int) -> int
    decreases i,
{
    if i <= 0 {
        0
    } else {
        sections_len(names, data, i - 1) + section_of(names[i - 1], data[i - 1]).len()
    }
}

proof fn lemma_sections_len_prefix(names: Seq<Seq<char>>, data: Seq<Seq<char>>, i: int)
    requires
        0 <= i < names.len(),
        names.len() == data.len(),
    ensures
        sections_len(names.drop_last(), data.drop_last(), i) == sections_len(names, data, i),
    decreases i,
{
    if i > 0 {
        lemma_sections_len_prefix(names, data, i - 1);
    }
}

proof fn lemma_sections_layout(names: Seq<Seq<char>>, data: Seq<Seq<char>>)
    requires
        names.len() == data.len(),
    ensures
        survivor_sections(names, data).len() == sections_len(names, data, names.len() as int),
        forall|i: int|
            0 <= i < names.len() ==> matches_at(
                survivor_sections(names, data),
                section_of(names[i], data[i]),
                #[trigger] sections_len(names, data, i),
            ),
    decreases names.len(),
{
    if names.len() > 0 {
        let n = names.len() as int;
        let pn = names.drop_last();
        let pd = data.drop_last();
        lemma_sections_layout(pn, pd);
        let prev = survivor_sections(pn, pd);
        let last = section_of(names.last(), data.last());
        let all = survivor_sections(names, data);
        assert(all =~= prev + last);
        lemma_sections_len_prefix(names, data, n - 1);
        assert forall|i: int| 0 <= i < n implies matches_at(
            all,
            section_of(names[i], data[i]),
            #[trigger] sections_len(names, data, i),
        ) by {
            if i < n - 1 {
                lemma_sections_len_prefix(names, data, i);
                assert(pn[i] == names[i] && pd[i] == data[i]);
                let o = sections_len(names, data, i);
                let sec = section_of(names[i], data[i]);
                assert(matches_at(prev, sec, o));
                assert(all.subrange(o, o + sec.len()) =~= prev.subrange(o, o + sec.len()));
            } else {
                assert(all.subrange(prev.len() as int, (prev.len() + last.len()) as int) =~= last);
            }
        }
    }
}

/// The full request holds the section of every survivor, each with its
/// data file, one after the other in the survivors' order and just before
/// the closing request; it opens with the compact request.
pub proof fn lemma_full_request_sections(
    compact: Seq<char>,
    map_zh: Seq<char>,
    map_data: Seq<char>,
    names: Seq<Seq<char>>,
    data: Seq<Seq<char>>,
)
    requires
        names.len() == data.len(),
    ensures
        ({
            let f = full_text(compact, map_zh, map_data, survivor_sections(names, data));
            let tail = "\n\n请结合以上资料与全部需求，给出 2~3 套天赋选择与区域选择方案。"@;
            let start = f.len() - tail.len() - sections_len(names, data, names.len() as int);
            &&& starts_with(f, compact)
            &&& ends_with(f, tail)
            &&& start >= compact.len()
            &&& forall|i: int|
                0 <= i < names.len() ==> matches_at(
                    f,
                    section_of(names[i], data[i]),
                    start + #[trigger] sections_len(names, data, i),
                )
        }),
{
    let secs = survivor_sections(names, data);
    lemma_sections_layout(names, data);
    let tail = "\n\n请结合以上资料与全部需求，给出 2~3 套天赋选择与区域选择方案。"@;
    let mid = "\n（以上为本局全部输入。此前的历史局记录见对话上文，其方案结果仅供参考，全局需求对每一局均生效。）\n\n【本局地图资料："@;
    let head = compact + mid + map_zh + "】\n"@ + map_data;
    let f = full_text(compact, map_zh, map_data, secs);
    assert(f =~= head + secs + tail);
    let start = head.len() as int;
    assert(f.subrange(0, compact.len() as int) =~= compact);
    assert(f.subrange(f.len() - tail.len(), f.len() as int) =~= tail);
    assert forall|i: int| 0 <= i < names.len() implies matches_at(
        f,
        section_of(names[i], data[i]),
        start + #[trigger] sections_len(names, data, i),
    ) by {
        let o = sections_len(names, data, i);
        let sec = section_of(names[i], data[i]);
        assert(matches_at(secs, sec, o));
        assert(f.subrange(start + o, start + o + sec.len()) =~= secs.subrange(o, o + sec.len()));
    }
}

} // verus!
