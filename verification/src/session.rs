//! One round of the assistant: the messages sent to the model, what to do
//! with its reply (accept the plans, ask again, or give up), and the
//! choice of the round's survivors.
use vstd::prelude::*;
use crate::api::Usage;
use crate::checker::{find_by_stem_in, lookup_stem, Entry, EntryView, ResourceDb};
use crate::parser::{error_text, plan_views, Plan, ParseError, ParseErrorView};
use crate::prompt::{compact_request, compact_text, survivor_names, RoundSpec};
use crate::text::{to_chars, trim, trim_v};

verus! {

// ----------------------------------------------------------------- talents

/// The file stem of a talent's icon; empty for an unknown talent.
pub open spec fn talent_stem_of(zh: Seq<char>) -> Seq<char> {
    if zh == "回光返照"@ {
        "borrowed-time"@
    } else if zh == "飞轮效应"@ {
        "flywheel-effect"@
    } else if zh == "膝跳反射"@ {
        "knee-jerk-reflex"@
    } else if zh == "化险为夷"@ {
        "tide-turner"@
    } else {
        ""@
    }
}

fn same_text(a: &Vec<char>, b: &str) -> (r: bool)
    ensures
        r == (a@ == b@),
{
    let bc = to_chars(b);
    if a.len() != bc.len() {
        return false;
    }
    let mut i: usize = 0;
    while i < a.len()
        invariant
            a.len() == bc.len(),
            bc@ == b@,
            i <= a.len(),
            forall|k: int| 0 <= k < i ==> a@[k] == bc@[k],
        decreases a.len() - i,
    {
        if a[i] != bc[i] {
            return false;
        }
        i = i + 1;
    }
    assert(a@ =~= bc@);
    true
}

/// The icon stem of a talent.
pub fn talent_stem(zh: &str) -> (r: &'static str)
    ensures
        r@ == talent_stem_of(zh@),
{
    let z = to_chars(zh);
    if same_text(&z, "回光返照") {
        "borrowed-time"
    } else if same_text(&z, "飞轮效应") {
        "flywheel-effect"
    } else if same_text(&z, "膝跳反射") {
        "knee-jerk-reflex"
    } else if same_text(&z, "化险为夷") {
        "tide-turner"
    } else {
        ""
    }
}

// ---------------------------------------------------------------- messages

#[derive(Clone, Copy, Debug, PartialEq, Eq)]
pub enum Role {
    System,
    User,
    Assistant,
}

/// One message of the conversation with the model.
#[derive(Clone, Debug)]
pub struct ChatMessage {
    pub role: Role,
    pub content: String,
}

pub struct MessageView {
    pub role: Role,
    pub content: Seq<char>,
}

impl View for ChatMessage {
    type V = MessageView;

    open spec fn view(&self) -> MessageView {
        MessageView { role: self.role, content: self.content@ }
    }
}

pub open spec fn message_views(v: Seq<ChatMessage>) -> Seq<MessageView> {
    v.map_values(|m: ChatMessage| m@)
}

/// What stands for the answer of a round that was interrupted.
pub const INTERRUPTED_REPLY: &'static str = "（该局分析被打断，未生成结果）";

/// An earlier round as the conversation recalls it.
pub struct PastRound {
    pub compact_request: String,
    pub assistant_reply: String,
}

/// The answer an earlier round contributes: its reply, or the stand-in text
/// when the reply is blank.
pub open spec fn recalled_reply(reply: Seq<char>) -> Seq<char> {
    if trim(reply).len() == 0 {
        INTERRUPTED_REPLY@
    } else {
        reply
    }
}

/// The messages for the past rounds: each one's compact request, then its answer.
pub open spec fn history_messages(rounds: Seq<PastRound>) -> Seq<MessageView>
    decreases rounds.len(),
{
    if rounds.len() == 0 {
        Seq::empty()
    } else {
        history_messages(rounds.drop_last()).push(
            MessageView { role: Role::User, content: rounds.last().compact_request@ },
        ).push(
            MessageView {
                role: Role::Assistant,
                content: recalled_reply(rounds.last().assistant_reply@),
            },
        )
    }
}

/// The conversation for a round: the system prompt, the past rounds, and
/// the round's full request.
pub open spec fn conversation(
    system_prompt: Seq<char>,
    rounds: Seq<PastRound>,
    full_request: Seq<char>,
) -> Seq<MessageView> {
    seq![MessageView { role: Role::System, content: system_prompt }] + history_messages(rounds)
        + seq![MessageView { role: Role::User, content: full_request }]
}

/// The messages that open a round's analysis.
pub fn build_messages(system_prompt: &str, rounds: &Vec<PastRound>, full_request: &str) -> (r: Vec<
    ChatMessage,
>)
    ensures
        message_views(r@) == conversation(system_prompt@, rounds@, full_request@),
{
    let mut out: Vec<ChatMessage> = Vec::new();
    out.push(ChatMessage { role: Role::System, content: String::from_str(system_prompt) });
    let mut i: usize = 0;
    let ghost head = seq![MessageView { role: Role::System, content: system_prompt@ }];
    assert(rounds@.take(0) =~= Seq::<PastRound>::empty());
    assert(message_views(out@) =~= head + history_messages(rounds@.take(0)));
    while i < rounds.len()
        invariant
            i <= rounds.len(),
            head == seq![MessageView { role: Role::System, content: system_prompt@ }],
            message_views(out@) == head + history_messages(rounds@.take(i as int)),
        decreases rounds.len() - i,
    {
        assert(rounds@.take(i + 1).drop_last() =~= rounds@.take(i as int));
        assert(rounds@.take(i + 1).last() == rounds@[i as int]);
        let r = &rounds[i];
        let ghost before = message_views(out@);
        let ghost mu = MessageView { role: Role::User, content: r.compact_request@ };
        let ghost ma = MessageView {
            role: Role::Assistant,
            content: recalled_reply(r.assistant_reply@),
        };
        out.push(ChatMessage { role: Role::User, content: r.compact_request.clone() });
        let blank = trim_v(&to_chars(r.assistant_reply.as_str())).len() == 0;
        let answer = if blank {
            String::from_str(INTERRUPTED_REPLY)
        } else {
            r.assistant_reply.clone()
        };
        assert(answer@ == ma.content);
        out.push(ChatMessage { role: Role::Assistant, content: answer });
        assert(message_views(out@) =~= before.push(mu).push(ma));
        assert(history_messages(rounds@.take(i + 1)) == history_messages(
            rounds@.take(i as int),
        ).push(mu).push(ma));
        i = i + 1;
        assert(message_views(out@) =~= head + history_messages(rounds@.take(i as int)));
    }
    assert(rounds@.take(rounds.len() as int) =~= rounds@);
    out.push(ChatMessage { role: Role::User, content: String::from_str(full_request) });
    assert(message_views(out@) =~= conversation(system_prompt@, rounds@, full_request@));
    out
}

/// The characters of all message contents together.
pub open spec fn content_chars(ms: Seq<MessageView>) -> int
    decreases ms.len(),
{
    if ms.len() == 0 {
        0
    } else {
        content_chars(ms.drop_last()) + ms.last().content.len()
    }
}

proof fn lemma_content_chars_grow(ms: Seq<MessageView>, i: int)
    requires
        0 <= i <= ms.len(),
    ensures
        0 <= content_chars(ms.take(i)) <= content_chars(ms),
    decreases ms.len(),
{
    if i < ms.len() {
        assert(ms.drop_last().take(i) =~= ms.take(i));
        lemma_content_chars_grow(ms.drop_last(), i);
    } else {
        assert(ms.take(i) =~= ms);
        if ms.len() > 0 {
            lemma_content_chars_grow(ms.drop_last(), ms.len() - 1);
            assert(ms.drop_last().take(ms.len() - 1) =~= ms.drop_last());
        }
    }
}

/// How many characters the messages hold.
pub fn prompt_chars(messages: &Vec<ChatMessage>) -> (r: usize)
    requires
        content_chars(message_views(messages@)) <= usize::MAX,
    ensures
        r == content_chars(message_views(messages@)),
{
    let ghost mv = message_views(messages@);
    let mut total: usize = 0;
    let mut i: usize = 0;
    assert(mv.take(0) =~= Seq::<MessageView>::empty());
    while i < messages.len()
        invariant
            i <= messages.len(),
            mv == message_views(messages@),
            content_chars(mv) <= usize::MAX,
            total == content_chars(mv.take(i as int)),
        decreases messages.len() - i,
    {
        assert(mv.take(i + 1).drop_last() =~= mv.take(i as int));
        assert(mv.take(i + 1).last() == messages@[i as int]@);
        proof {
            lemma_content_chars_grow(mv, i + 1);
        }
        let n = to_chars(messages[i].content.as_str()).len();
        total = total + n;
        i = i + 1;
    }
    assert(mv.take(messages.len() as int) =~= mv);
    total
}

// ------------------------------------------------------------- the reply

/// Tokens estimated from characters when the service reports no usage:
/// three quarters of the characters, rounded up.
pub open spec fn estimated_tokens(chars: nat) -> nat {
    ((3 * chars + 3) / 4) as nat
}

pub fn estimate_tokens(chars: usize) -> (r: u64)
    ensures
        r == estimated_tokens(chars as nat),
{
    let n = chars as u64;
    n - n / 4
}

/// How many times a round asks the model again after a malformed answer.
pub open spec fn retry_limit() -> usize {
    3
}

/// What to do with the model's answer.
pub enum ReplyAction {
    /// The analysis was interrupted.
    Interrupted,
    /// The answer holds valid plans; `estimated` tells that the usage was
    /// estimated from characters.
    Accept { plans: Vec<Plan>, usage: Usage, estimated: bool },
    /// Ask again: the answer and `feedback` join the conversation; this is
    /// attempt number `retry_count` after the first.
    Retry { retry_count: usize, answer: String, feedback: String },
    /// The model keeps answering in the wrong format.
    GiveUp,
}

/// The message that asks the model to answer again, with what was wrong.
pub open spec fn feedback_text(e: ParseErrorView) -> Seq<char> {
    "你的输出有误："@ + error_text(e) + RETRY_RULES@
}

/// The format rules that follow the complaint.
pub const RETRY_RULES: &'static str = "。请严格按照格式要求重新生成。\n格式要求：\n- 每套方案6行：方案编号行、4行选点行、1行描述行。\n- 选点行格式：x 号选点：角色名：天赋1、天赋2\n- 描述行以\"具体描述及分析：\"开头，不超过100字。\n- 不要输出其他内容。";

/// The message shown when the model gives up.
pub const GIVE_UP_MESSAGE: &'static str = "您的模型与该项目不适配";

/// The message shown when the analysis was interrupted.
pub const INTERRUPTED_MESSAGE: &'static str = "分析已打断";

pub fn feedback_for(e: &ParseError) -> (r: String)
    ensures
        r@ == feedback_text(e@),
{
    let mut r = String::from_str("你的输出有误：");
    r.append(e.message().as_str());
    r.append(RETRY_RULES);
    r
}

/// What the reply of a call leads to: an interruption ends the round; valid
/// plans are accepted with the reported usage or, when none was reported,
/// one estimated from the prompt's and the answer's characters; a
/// malformed answer is sent back with the complaint while fewer than three
/// retries were made, after which the round gives up.
pub fn after_reply(
    content: &str,
    interrupted: bool,
    usage: Option<Usage>,
    prompt_chars: usize,
    parsed: Result<Vec<Plan>, ParseError>,
    retry_count: usize,
) -> (r: ReplyAction)
    ensures
        interrupted ==> r is Interrupted,
        !interrupted ==> match parsed {
            Ok(plans) => match r {
                ReplyAction::Accept { plans: p, usage: u, estimated } => {
                    &&& plan_views(p@) == plan_views(plans@)
                    &&& estimated == usage is None
                    &&& u == match usage {
                        Some(x) => x,
                        None => Usage {
                            prompt_tokens: estimated_tokens(prompt_chars as nat) as u64,
                            completion_tokens: estimated_tokens(content@.len()) as u64,
                        },
                    }
                },
                _ => false,
            },
            Err(e) => if retry_count < retry_limit() {
                r matches ReplyAction::Retry { retry_count: n, answer, feedback } && n
                    == retry_count + 1 && answer@ == content@ && feedback@ == feedback_text(e@)
            } else {
                r is GiveUp
            },
        },
{
    if interrupted {
        return ReplyAction::Interrupted;
    }
    match parsed {
        Ok(plans) => {
            let (u, estimated) = match usage {
                Some(x) => (x, false),
                None => {
                    let answer_chars = to_chars(content).len();
                    (
                        Usage {
                            prompt_tokens: estimate_tokens(prompt_chars),
                            completion_tokens: estimate_tokens(answer_chars),
                        },
                        true,
                    )
                },
            };
            ReplyAction::Accept { plans, usage: u, estimated }
        },
        Err(e) => {
            if retry_count < 3 {
                ReplyAction::Retry {
                    retry_count: retry_count + 1,
                    answer: String::from_str(content),
                    feedback: feedback_for(&e),
                }
            } else {
                ReplyAction::GiveUp
            }
        },
    }
}

// ------------------------------------------------------ the round's cast

pub open spec fn entry_for_stem(es: Seq<Entry>, stem: Seq<char>) -> Option<EntryView> {
    match lookup_stem(es, stem) {
        Some(i) => Some(es[i]@),
        None => None,
    }
}

/// The entries that the given stems designate, in the stems' order; unknown
/// stems are skipped.
pub open spec fn entries_by_stems(es: Seq<Entry>, stems: Seq<String>) -> Seq<EntryView>
    decreases stems.len(),
{
    if stems.len() == 0 {
        Seq::empty()
    } else {
        let r = entries_by_stems(es, stems.drop_last());
        match entry_for_stem(es, stems.last()@) {
            Some(e) => r.push(e),
            None => r,
        }
    }
}

pub open spec fn entry_seq_views(v: Seq<Entry>) -> Seq<EntryView> {
    v.map_values(|e: Entry| e@)
}

fn copy_entry(e: &Entry) -> (r: Entry)
    ensures
        r@ == e@,
{
    Entry { zh: e.zh.clone(), stem: e.stem.clone(), path: e.path.clone() }
}

/// The entries of a catalogue that the given stems designate, in the order
/// of the stems (a display order, or the survivors chosen for a round).
pub fn entries_for_stems(es: &Vec<Entry>, stems: &Vec<String>) -> (r: Vec<Entry>)
    ensures
        entry_seq_views(r@) == entries_by_stems(es@, stems@),
{
    let mut out: Vec<Entry> = Vec::new();
    let mut i: usize = 0;
    assert(stems@.take(0) =~= Seq::<String>::empty());
    assert(entry_seq_views(out@) =~= Seq::<EntryView>::empty());
    while i < stems.len()
        invariant
            i <= stems.len(),
            entry_seq_views(out@) == entries_by_stems(es@, stems@.take(i as int)),
        decreases stems.len() - i,
    {
        assert(stems@.take(i + 1).drop_last() =~= stems@.take(i as int));
        assert(stems@.take(i + 1).last() == stems@[i as int]);
        match find_by_stem_in(es, stems[i].as_str()) {
            Some(e) => {
                out.push(copy_entry(e));
                assert(entry_seq_views(out@) =~= entries_by_stems(es@, stems@.take(i + 1)));
            },
            None => {},
        }
        i = i + 1;
    }
    assert(stems@.take(stems.len() as int) =~= stems@);
    out
}

/// The round's map and survivors from the chosen stems; `None` when the map
/// is unknown.
pub fn select_round(db: &ResourceDb, map_stem: &str, survivor_stems: &Vec<String>) -> (r: Option<
    (Entry, Vec<Entry>),
>)
    ensures
        match entry_for_stem(db.maps@, map_stem@) {
            None => r is None,
            Some(m) => r matches Some((map, survivors)) && map@ == m && entry_seq_views(
                survivors@,
            ) == entries_by_stems(db.survivors@, survivor_stems@),
        },
{
    let map = match db.find_map_by_stem(map_stem) {
        Some(e) => copy_entry(e),
        None => {
            return None;
        },
    };
    Some((map, entries_for_stems(&db.survivors, survivor_stems)))
}

/// Why a round cannot be analysed.
#[derive(Debug, PartialEq, Eq)]
pub enum RoundError {
    /// The chosen map is not in the catalogue (or none is chosen).
    NoMap,
    /// The chosen stems do not name exactly four survivors.
    WrongCast,
}

impl RoundError {
    /// The error as a sentence.
    pub fn message(&self) -> (r: &'static str)
        ensures
            r@ == (match self {
                RoundError::NoMap => "未选择地图"@,
                RoundError::WrongCast => "角色数量不为4"@,
            }),
    {
        match self {
            RoundError::NoMap => "未选择地图",
            RoundError::WrongCast => "角色数量不为4",
        }
    }
}

/// The round to analyse: its map and its four survivors. An unknown map is
/// refused first; then a choice that does not name exactly four survivors.
pub fn prepare_round(db: &ResourceDb, map_stem: &str, survivor_stems: &Vec<String>) -> (r: Result<
    (Entry, Vec<Entry>),
    RoundError,
>)
    ensures
        match entry_for_stem(db.maps@, map_stem@) {
            None => r == Err::<(Entry, Vec<Entry>), RoundError>(RoundError::NoMap),
            Some(m) => if entries_by_stems(db.survivors@, survivor_stems@).len() != cast_size() {
                r == Err::<(Entry, Vec<Entry>), RoundError>(RoundError::WrongCast)
            } else {
                r matches Ok((map, survivors)) && map@ == m && entry_seq_views(survivors@)
                    == entries_by_stems(db.survivors@, survivor_stems@)
            },
        },
{
    match select_round(db, map_stem, survivor_stems) {
        None => Err(RoundError::NoMap),
        Some((map, survivors)) => {
            if survivors.len() != 4 {
                Err(RoundError::WrongCast)
            } else {
                Ok((map, survivors))
            }
        },
    }
}

// ------------------------------------------------------ a finished round

/// A finished round as the session keeps it. Its cost, which the prices
/// make a floating-point number, is kept beside it by the caller.
pub struct RoundEntry {
    pub index: usize,
    pub map: String,
    pub survivors: Vec<String>,
    pub round_req: String,
    pub compact_request: String,
    pub assistant_reply: String,
    pub interrupted: bool,
    pub usage: Option<Usage>,
    pub estimated: bool,
}

pub struct RoundEntryView {
    pub index: usize,
    pub map: Seq<char>,
    pub survivors: Seq<Seq<char>>,
    pub round_req: Seq<char>,
    pub compact_request: Seq<char>,
    pub assistant_reply: Seq<char>,
    pub interrupted: bool,
    pub usage: Option<Usage>,
    pub estimated: bool,
}

impl View for RoundEntry {
    type V = RoundEntryView;

    open spec fn view(&self) -> RoundEntryView {
        RoundEntryView {
            index: self.index,
            map: self.map@,
            survivors: self.survivors@.map_values(|n: String| n@),
            round_req: self.round_req@,
            compact_request: self.compact_request@,
            assistant_reply: self.assistant_reply@,
            interrupted: self.interrupted,
            usage: self.usage,
            estimated: self.estimated,
        }
    }
}

pub open spec fn display_names(es: Seq<EntryView>) -> Seq<Seq<char>> {
    es.map_values(|e: EntryView| e.zh)
}

/// The record of the round that follows `rounds_before` rounds: numbered
/// from 1, with the display names of its map and survivors, its compact
/// request, and the model's reply; `None` when the map is unknown.
pub open spec fn finished_round(
    maps: Seq<Entry>,
    survivors: Seq<Entry>,
    map_stem: Seq<char>,
    survivor_stems: Seq<String>,
    rounds_before: nat,
    global_req: Seq<char>,
    round_req: Seq<char>,
    reply: Seq<char>,
    usage: Option<Usage>,
    estimated: bool,
) -> Option<RoundEntryView> {
    match entry_for_stem(maps, map_stem) {
        None => None,
        Some(m) => {
            let index = (rounds_before + 1) as usize;
            let names = display_names(entries_by_stems(survivors, survivor_stems));
            Some(
                RoundEntryView {
                    index,
                    map: m.zh,
                    survivors: names,
                    round_req,
                    compact_request: compact_text(index, m.zh, names, global_req, round_req),
                    assistant_reply: reply,
                    interrupted: false,
                    usage,
                    estimated,
                },
            )
        },
    }
}

/// The record of a round that has ended, to be added to the session.
pub fn finish_round(
    db: &ResourceDb,
    map_stem: &str,
    survivor_stems: &Vec<String>,
    rounds_before: usize,
    global_req: &str,
    round_req: &str,
    reply: &str,
    usage: Option<Usage>,
    estimated: bool,
) -> (r: Option<RoundEntry>)
    requires
        rounds_before < usize::MAX,
    ensures
        match finished_round(
            db.maps@,
            db.survivors@,
            map_stem@,
            survivor_stems@,
            rounds_before as nat,
            global_req@,
            round_req@,
            reply@,
            usage,
            estimated,
        ) {
            None => r is None,
            Some(v) => r matches Some(e) && e@ == v,
        },
{
    let (map, cast) = match select_round(db, map_stem, survivor_stems) {
        Some(round) => round,
        None => {
            return None;
        },
    };
    let ghost cv = entry_seq_views(cast@);
    let mut refs: Vec<&Entry> = Vec::new();
    let mut names: Vec<String> = Vec::new();
    let mut i: usize = 0;
    while i < cast.len()
        invariant
            i <= cast.len(),
            cv == entry_seq_views(cast@),
            refs@.len() == i,
            names@.len() == i,
            forall|k: int| 0 <= k < i ==> #[trigger] refs@[k] == &cast@[k],
            forall|k: int| 0 <= k < i ==> (#[trigger] names@[k])@ == cast@[k].zh@,
        decreases cast.len() - i,
    {
        refs.push(&cast[i]);
        names.push(cast[i].zh.clone());
        i = i + 1;
    }
    let ghost nv = display_names(cv);
    assert(survivor_names(refs@) =~= nv);
    assert(names@.map_values(|n: String| n@) =~= nv);
    let index = rounds_before + 1;
    let spec = RoundSpec {
        index,
        map: &map,
        survivors: refs,
        global_req,
        round_req,
    };
    let compact = compact_request(&spec);
    Some(
        RoundEntry {
            index,
            map: map.zh.clone(),
            survivors: names,
            round_req: String::from_str(round_req),
            compact_request: compact,
            assistant_reply: String::from_str(reply),
            interrupted: false,
            usage,
            estimated,
        },
    )
}

// ------------------------------------------------------ choosing the cast

/// How many survivors a round takes.
pub open spec fn cast_size() -> nat {
    4
}

pub open spec fn stem_views(v: Seq<String>) -> Seq<Seq<char>> {
    v.map_values(|s: String| s@)
}

/// Clicking a survivor: a chosen one is put back, another one is chosen
/// when fewer than four are.
pub open spec fn toggled(chosen: Seq<Seq<char>>, stem: Seq<char>) -> Seq<Seq<char>> {
    match chosen.index_of_first(stem) {
        Some(i) => chosen.remove(i),
        None => if chosen.len() < cast_size() {
            chosen.push(stem)
        } else {
            chosen
        },
    }
}

pub fn toggle_survivor(chosen: &mut Vec<String>, stem: &str)
    ensures
        stem_views(final(chosen)@) == toggled(stem_views(old(chosen)@), stem@),
{
    let ghost sv = stem_views(chosen@);
    let mut i: usize = 0;
    while i < chosen.len()
        invariant
            i <= chosen.len(),
            sv == stem_views(chosen@),
            chosen@ == old(chosen)@,
            forall|k: int| 0 <= k < i ==> sv[k] != stem@,
        decreases chosen.len() - i,
    {
        if same_text(&to_chars(chosen[i].as_str()), stem) {
            assert(sv[i as int] == stem@);
            assert(sv.contains(stem@));
            assert(sv.index_of_first(stem@) == Some(i as int)) by {
                sv.index_of_first_ensures(stem@);
            }
            chosen.remove(i);
            assert(stem_views(chosen@) =~= sv.remove(i as int));
            return;
        }
        i = i + 1;
    }
    assert(!sv.contains(stem@));
    proof {
        sv.index_of_first_ensures(stem@);
    }
    if chosen.len() < 4 {
        chosen.push(String::from_str(stem));
        assert(stem_views(chosen@) =~= sv.push(stem@));
    }
}

/// Clicking a map: the chosen map is put back, another one is chosen.
pub open spec fn map_toggled(chosen: Seq<char>, stem: Seq<char>) -> Seq<char> {
    if chosen == stem {
        Seq::empty()
    } else {
        stem
    }
}

pub fn toggle_map(chosen: &mut String, stem: &str)
    ensures
        final(chosen)@ == map_toggled(old(chosen)@, stem@),
{
    if same_text(&to_chars(chosen.as_str()), stem) {
        *chosen = String::new();
    } else {
        *chosen = String::from_str(stem);
    }
}

/// The slot of the survivor grid behind a cell: eighteen per page, the left
/// three columns holding slots 0 to 8 row by row, the right three 9 to 17.
pub open spec fn grid_slot(page: nat, row: nat, col: nat) -> nat {
    if col < 3 {
        page * 18 + row * 3 + col
    } else {
        page * 18 + 9 + row * 3 + (col - 3) as nat
    }
}

pub fn picker_slot(page: usize, row: usize, col: usize) -> (r: usize)
    requires
        page <= 2,
        row < 3,
        col < 6,
    ensures
        r == grid_slot(page as nat, row as nat, col as nat),
{
    if col < 3 {
        page * 18 + row * 3 + col
    } else {
        page * 18 + 9 + row * 3 + (col - 3)
    }
}


// ================================================================= laws

proof fn lemma_history_shape(rounds: Seq<PastRound>)
    ensures
        history_messages(rounds).len() == 2 * rounds.len(),
        forall|i: int|
            0 <= i < rounds.len() ==> {
                &&& (#[trigger] history_messages(rounds)[2 * i]).role == Role::User
                &&& history_messages(rounds)[2 * i].content == rounds[i].compact_request@
                &&& history_messages(rounds)[2 * i + 1].role == Role::Assistant
                &&& history_messages(rounds)[2 * i + 1].content == recalled_reply(
                    rounds[i].assistant_reply@,
                )
            },
    decreases rounds.len(),
{
    if rounds.len() > 0 {
        let prev = rounds.drop_last();
        lemma_history_shape(prev);
        assert forall|i: int| 0 <= i < rounds.len() implies {
            &&& (#[trigger] history_messages(rounds)[2 * i]).role == Role::User
            &&& history_messages(rounds)[2 * i].content == rounds[i].compact_request@
            &&& history_messages(rounds)[2 * i + 1].role == Role::Assistant
            &&& history_messages(rounds)[2 * i + 1].content == recalled_reply(
                rounds[i].assistant_reply@,
            )
        } by {
            if i < prev.len() {
                assert(history_messages(prev)[2 * i] == history_messages(rounds)[2 * i]);
                assert(history_messages(prev)[2 * i + 1] == history_messages(rounds)[2 * i + 1]);
                assert(prev[i] == rounds[i]);
            }
        }
    }
}

/// The conversation of a round opens with the system prompt, recalls each
/// past round as its compact request followed by its answer (or the
/// stand-in text of an interrupted round), and ends with the round's full
/// request.
pub proof fn lemma_conversation_shape(
    system_prompt: Seq<char>,
    rounds: Seq<PastRound>,
    full_request: Seq<char>,
)
    ensures
        ({
            let c = conversation(system_prompt, rounds, full_request);
            &&& c.len() == 2 * rounds.len() + 2
            &&& c[0] == MessageView { role: Role::System, content: system_prompt }
            &&& c.last() == MessageView { role: Role::User, content: full_request }
            &&& forall|i: int|
                0 <= i < rounds.len() ==> {
                    &&& (#[trigger] c[2 * i + 1]).role == Role::User
                    &&& c[2 * i + 1].content == rounds[i].compact_request@
                    &&& c[2 * i + 2].role == Role::Assistant
                    &&& c[2 * i + 2].content == recalled_reply(rounds[i].assistant_reply@)
                }
        }),
{
    lemma_history_shape(rounds);
    let c = conversation(system_prompt, rounds, full_request);
    let h = history_messages(rounds);
    assert forall|i: int| 0 <= i < rounds.len() implies {
        &&& (#[trigger] c[2 * i + 1]).role == Role::User
        &&& c[2 * i + 1].content == rounds[i].compact_request@
        &&& c[2 * i + 2].role == Role::Assistant
        &&& c[2 * i + 2].content == recalled_reply(rounds[i].assistant_reply@)
    } by {
        assert(c[2 * i + 1] == h[2 * i]);
        assert(c[2 * i + 2] == h[2 * i + 1]);
    }
}

/// Choosing never leaves more than four survivors chosen.
pub proof fn lemma_toggle_keeps_cast_size(chosen: Seq<Seq<char>>, stem: Seq<char>)
    requires
        chosen.len() <= cast_size(),
    ensures
        toggled(chosen, stem).len() <= cast_size(),
{
    chosen.index_of_first_ensures(stem);
}

/// Choosing a survivor who is not chosen, while there is room, and then
/// clicking them again leaves the choice as it was.
pub proof fn lemma_toggle_twice(chosen: Seq<Seq<char>>, stem: Seq<char>)
    requires
        !chosen.contains(stem),
        chosen.len() < cast_size(),
    ensures
        toggled(toggled(chosen, stem), stem) == chosen,
{
    chosen.index_of_first_ensures(stem);
    let once = chosen.push(stem);
    assert(toggled(chosen, stem) == once);
    once.index_of_first_ensures(stem);
    assert(once[chosen.len() as int] == stem);
    assert(once.contains(stem));
    let i = once.index_of_first(stem)->0;
    if i < chosen.len() {
        assert(chosen[i] == once[i]);
        assert(chosen.contains(stem));
    }
    assert(i == chosen.len());
    assert(once.remove(i) =~= chosen);
}

/// No survivor is chosen twice: a click on a chosen survivor puts them
/// back, a click on another one chooses them exactly when fewer than four
/// are chosen.
pub proof fn lemma_toggle_no_repeats(chosen: Seq<Seq<char>>, stem: Seq<char>)
    requires
        chosen.no_duplicates(),
    ensures
        toggled(chosen, stem).no_duplicates(),
        toggled(chosen, stem).contains(stem) <==> (!chosen.contains(stem) && chosen.len()
            < cast_size()),
{
    chosen.index_of_first_ensures(stem);
    match chosen.index_of_first(stem) {
        Some(i) => {
            let r = chosen.remove(i);
            assert forall|a: int, b: int|
                0 <= a < r.len() && 0 <= b < r.len() && a != b implies r[a] != r[b] by {
                let a0 = if a < i {
                    a
                } else {
                    a + 1
                };
                let b0 = if b < i {
                    b
                } else {
                    b + 1
                };
                assert(r[a] == chosen[a0]);
                assert(r[b] == chosen[b0]);
            }
            if r.contains(stem) {
                let j = choose|j: int| 0 <= j < r.len() && r[j] == stem;
                let j0 = if j < i {
                    j
                } else {
                    j + 1
                };
                assert(r[j] == chosen[j0]);
                assert(chosen[i] == stem);
            }
        },
        None => {
            if chosen.len() < cast_size() {
                let r = chosen.push(stem);
                assert(r[chosen.len() as int] == stem);
                assert forall|a: int, b: int|
                    0 <= a < r.len() && 0 <= b < r.len() && a != b implies r[a] != r[b] by {
                    if a < chosen.len() && b < chosen.len() {
                        assert(r[a] == chosen[a] && r[b] == chosen[b]);
                    } else if a < chosen.len() {
                        assert(r[a] == chosen[a]);
                    } else if b < chosen.len() {
                        assert(r[b] == chosen[b]);
                    }
                }
            }
        },
    }
}

} // verus!
