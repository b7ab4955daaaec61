//! The tray: what each linked server's row says, the tooltip, and what a
//! click on a menu entry asks for. Also the linking flow's decisions.
use vstd::prelude::*;
use crate::status::{aggregate_icon_state, effective_status, pair_texts, spec_aggregate, spec_effective_status, IconState};
use crate::text::{append_chars, chars_of, join, str_eq};
use crate::scanner::strs;

verus! {

/// Human label for a server row's current state in the tray menu.
pub open spec fn spec_state_word(effective: Seq<char>, conn: Option<Seq<char>>) -> Seq<char> {
    if effective == "offline"@ {
        "offline"@
    } else if effective == "invisible"@ {
        "invisible"@
    } else if conn == Some("connected"@) {
        "online"@
    } else if conn == Some("disconnected"@) {
        "reconnecting"@
    } else {
        "connecting"@
    }
}

/// Human label for a server row's current state in the tray menu.
pub fn server_state_word(effective: &str, conn: Option<&str>) -> (r: &'static str)
    ensures
        r@ == spec_state_word(effective@, match conn {
            Some(c) => Some(c@),
            None => None,
        }),
{
    if str_eq(effective, "offline") {
        "offline"
    } else if str_eq(effective, "invisible") {
        "invisible"
    } else {
        match conn {
            Some(c) => if str_eq(c, "connected") {
                "online"
            } else if str_eq(c, "disconnected") {
                "reconnecting"
            } else {
                "connecting"
            },
            None => "connecting",
        }
    }
}

/// The word the tooltip gives the aggregated state.
pub open spec fn spec_icon_word(s: IconState) -> Seq<char> {
    match s {
        IconState::InGame | IconState::Idle => "Online"@,
        IconState::Invisible => "Invisible"@,
        IconState::Problem => "Reconnecting"@,
        IconState::Offline => "Offline (not recording)"@,
    }
}

/// The word the tooltip gives the aggregated state.
pub fn icon_word(s: IconState) -> (r: &'static str)
    ensures
        r@ == spec_icon_word(s),
{
    match s {
        IconState::InGame | IconState::Idle => "Online",
        IconState::Invisible => "Invisible",
        IconState::Problem => "Reconnecting",
        IconState::Offline => "Offline (not recording)",
    }
}

/// The tray tooltip: the games being played, when any, and the state word.
pub open spec fn spec_tooltip(playing: Seq<Seq<char>>, word: Seq<char>) -> Seq<char> {
    if playing.len() > 0 {
        "KFIRE — Playing "@ + join(playing, ", "@) + " · "@ + word
    } else {
        "KFIRE — "@ + word
    }
}

/// The tray tooltip, from the names of the games being played.
pub fn tooltip(playing: &Vec<String>, word: &str) -> (r: String)
    ensures
        r@ == spec_tooltip(strs(playing@), word@),
{
    if playing.len() > 0 {
        let mut out = "KFIRE — Playing ".to_owned();
        let sep = chars_of(", ");
        let ghost start = out@;
        let mut i: usize = 0;
        proof {
            assert(strs(playing@).take(0) =~= seq![]);
            assert(out@ =~= start + join(strs(playing@).take(0), ", "@));
        }
        while i < playing.len()
            invariant
                i <= playing@.len(),
                sep@ == ", "@,
                out@ == start + join(strs(playing@).take(i as int), ", "@),
            decreases playing@.len() - i,
        {
            let ghost t = strs(playing@).take(i + 1);
            proof {
                assert(t.drop_last() =~= strs(playing@).take(i as int));
                assert(t.last() == playing@[i as int]@);
            }
            if i > 0 {
                append_chars(&mut out, sep.as_slice());
            }
            append_chars(&mut out, chars_of(playing[i].as_str()).as_slice());
            proof {
                if i == 0 {
                    assert(out@ =~= start + t[0]);
                } else {
                    assert(out@ =~= start + (join(t.drop_last(), ", "@) + ", "@ + t.last()));
                }
            }
            i = i + 1;
        }
        proof {
            assert(strs(playing@).take(playing@.len() as int) =~= strs(playing@));
        }
        append_chars(&mut out, chars_of(" · ").as_slice());
        append_chars(&mut out, chars_of(word).as_slice());
        proof {
            assert(out@ =~= spec_tooltip(strs(playing@), word@));
        }
        out
    } else {
        let mut out = "KFIRE — ".to_owned();
        append_chars(&mut out, chars_of(word).as_slice());
        out
    }
}

/// A server row's label: its organisation's name, or its address when it
/// has none, then its state word.
pub fn server_label(org_name: &str, url: &str, word: &str) -> (r: String)
    ensures
        r@ == (if org_name@.len() == 0 { url@ } else { org_name@ }) + " — "@ + word@,
{
    let mut out = String::new();
    if org_name.is_empty() {
        append_chars(&mut out, chars_of(url).as_slice());
    } else {
        append_chars(&mut out, chars_of(org_name).as_slice());
    }
    append_chars(&mut out, chars_of(" — ").as_slice());
    append_chars(&mut out, chars_of(word).as_slice());
    out
}

/// The menu entry id that sets a server's override.
pub fn server_item_id(server_id: &str, status: &str) -> (r: String)
    ensures
        r@ == "s:"@ + server_id@ + ":"@ + status@,
{
    let mut out = "s:".to_owned();
    append_chars(&mut out, chars_of(server_id).as_slice());
    append_chars(&mut out, chars_of(":").as_slice());
    append_chars(&mut out, chars_of(status).as_slice());
    out
}

/// The menu entry id that unlinks a server.
pub fn unlink_item_id(server_id: &str) -> (r: String)
    ensures
        r@ == "u:"@ + server_id@,
{
    let mut out = "u:".to_owned();
    append_chars(&mut out, chars_of(server_id).as_slice());
    out
}

/// A linked server, as the tray reads it: its id, organisation name,
/// address, status override, and its connection's state, if one runs.
pub struct TrayServerInput {
    pub id: String,
    pub org_name: String,
    pub url: String,
    pub status_override: String,
    pub conn: Option<String>,
}

/// One server's row of the tray menu: its label, the four status choices as
/// `(entry id, label, checked)`, and the id of its unlink entry.
pub struct TrayRow {
    pub label: String,
    pub choices: Vec<(String, String, bool)>,
    pub unlink_id: String,
}

/// Everything the tray shows: the global status, one row per server, the
/// tooltip and the icon's state.
pub struct TrayContents {
    pub global_status: String,
    pub rows: Vec<TrayRow>,
    pub tooltip: String,
    pub icon: IconState,
}

/// A server, as text.
pub struct ServerInputView {
    pub id: Seq<char>,
    pub org_name: Seq<char>,
    pub url: Seq<char>,
    pub status_override: Seq<char>,
    pub conn: Option<Seq<char>>,
}

impl View for TrayServerInput {
    type V = ServerInputView;

    open spec fn view(&self) -> ServerInputView {
        ServerInputView {
            id: self.id@,
            org_name: self.org_name@,
            url: self.url@,
            status_override: self.status_override@,
            conn: match self.conn {
                Some(c) => Some(c@),
                None => None,
            },
        }
    }
}

/// A row, as text.
pub struct RowView {
    pub label: Seq<char>,
    pub choices: Seq<(Seq<char>, Seq<char>, bool)>,
    pub unlink_id: Seq<char>,
}

pub open spec fn choice_view(c: (String, String, bool)) -> (Seq<char>, Seq<char>, bool) {
    (c.0@, c.1@, c.2)
}

impl View for TrayRow {
    type V = RowView;

    open spec fn view(&self) -> RowView {
        RowView {
            label: self.label@,
            choices: self.choices@.map_values(|c: (String, String, bool)| choice_view(c)),
            unlink_id: self.unlink_id@,
        }
    }
}

/// The choice that sets a server's override to `value`, checked when it is
/// the override in force.
pub open spec fn spec_choice(id: Seq<char>, current: Seq<char>, value: Seq<char>, label: Seq<char>) -> (Seq<char>, Seq<char>, bool) {
    ("s:"@ + id + ":"@ + value, label, current == value)
}

/// A server's row: its name (or address) and state word, the four choices
/// in order (use the global status, online, invisible, offline), and its
/// unlink entry.
pub open spec fn spec_row(global: Seq<char>, s: ServerInputView) -> RowView {
    let word = spec_state_word(spec_effective_status(global, s.status_override), s.conn);
    RowView {
        label: (if s.org_name.len() == 0 { s.url } else { s.org_name }) + " — "@ + word,
        choices: seq![
            spec_choice(s.id, s.status_override, "inherit"@, "Use global"@),
            spec_choice(s.id, s.status_override, "online"@, "Online"@),
            spec_choice(s.id, s.status_override, "invisible"@, "Invisible"@),
            spec_choice(s.id, s.status_override, "offline"@, "Offline"@),
        ],
        unlink_id: "u:"@ + s.id,
    }
}

/// A server's `(effective status, connection state)` for the icon, the
/// connection state empty when none runs.
pub open spec fn spec_icon_input(global: Seq<char>, s: ServerInputView) -> (Seq<char>, Seq<char>) {
    (spec_effective_status(global, s.status_override), match s.conn {
        Some(c) => c,
        None => seq![],
    })
}

/// The global status in force: `online` when none was ever chosen.
pub open spec fn spec_global(g: Option<Seq<char>>) -> Seq<char> {
    match g {
        Some(x) => x,
        None => "online"@,
    }
}

fn choice(id: &str, current: &str, value: &str, label: &str) -> (r: (String, String, bool))
    ensures
        choice_view(r) == spec_choice(id@, current@, value@, label@),
{
    (server_item_id(id, value), label.to_string(), str_eq(current, value))
}

/// What the tray shows, from the global status (if one was chosen), the
/// linked servers and the names of the games being played.
pub fn tray_contents(global: Option<&str>, servers: &Vec<TrayServerInput>, playing: &Vec<String>) -> (r: TrayContents)
    ensures
        ({
            let g = spec_global(match global {
                Some(x) => Some(x@),
                None => None,
            });
            let sv = servers@.map_values(|s: TrayServerInput| s@);
            &&& r.global_status@ == g
            &&& r.rows@.map_values(|row: TrayRow| row@) == sv.map_values(|s: ServerInputView| spec_row(g, s))
            &&& r.icon == spec_aggregate(playing@.len() > 0, sv.map_values(|s: ServerInputView| spec_icon_input(g, s)))
            &&& r.tooltip@ == spec_tooltip(strs(playing@), spec_icon_word(r.icon))
        }),
{
    let g: String = match global {
        Some(x) => x.to_string(),
        None => "online".to_string(),
    };
    let ghost sv = servers@.map_values(|s: TrayServerInput| s@);
    let mut rows: Vec<TrayRow> = Vec::new();
    let mut states: Vec<(String, String)> = Vec::new();
    let mut i: usize = 0;
    while i < servers.len()
        invariant
            i <= servers@.len(),
            sv == servers@.map_values(|s: TrayServerInput| s@),
            rows@.map_values(|row: TrayRow| row@) == sv.take(i as int).map_values(|s: ServerInputView| spec_row(g@, s)),
            pair_texts(states@) == sv.take(i as int).map_values(|s: ServerInputView| spec_icon_input(g@, s)),
        decreases servers@.len() - i,
    {
        let s = &servers[i];
        let eff = effective_status(g.as_str(), s.status_override.as_str());
        let conn: Option<&str> = match &s.conn {
            Some(c) => Some(c.as_str()),
            None => None,
        };
        let word = server_state_word(eff.as_str(), conn);
        let id = s.id.as_str();
        let cur = s.status_override.as_str();
        let mut choices: Vec<(String, String, bool)> = Vec::new();
        choices.push(choice(id, cur, "inherit", "Use global"));
        choices.push(choice(id, cur, "online", "Online"));
        choices.push(choice(id, cur, "invisible", "Invisible"));
        choices.push(choice(id, cur, "offline", "Offline"));
        let row = TrayRow {
            label: server_label(s.org_name.as_str(), s.url.as_str(), word),
            choices,
            unlink_id: unlink_item_id(id),
        };
        let conn_text: String = match &s.conn {
            Some(c) => c.clone(),
            None => String::new(),
        };
        let ghost before_rows = rows@.map_values(|row: TrayRow| row@);
        let ghost before_states = pair_texts(states@);
        proof {
            assert(sv[i as int] == s@);
            assert(row@.choices =~= spec_row(g@, s@).choices);
            assert(row@ == spec_row(g@, s@));
        }
        rows.push(row);
        states.push((eff, conn_text));
        proof {
            assert(sv.take(i + 1) =~= sv.take(i as int).push(sv[i as int]));
            assert(rows@.map_values(|row: TrayRow| row@) =~= before_rows.push(spec_row(g@, s@)));
            assert(pair_texts(states@) =~= before_states.push(spec_icon_input(g@, s@)));
            assert(sv.take(i + 1).map_values(|s: ServerInputView| spec_row(g@, s)) =~= sv.take(i as int).map_values(
                |s: ServerInputView| spec_row(g@, s),
            ).push(spec_row(g@, s@)));
            assert(sv.take(i + 1).map_values(|s: ServerInputView| spec_icon_input(g@, s)) =~= sv.take(i as int).map_values(
                |s: ServerInputView| spec_icon_input(g@, s),
            ).push(spec_icon_input(g@, s@)));
        }
        i = i + 1;
    }
    proof {
        assert(sv.take(sv.len() as int) =~= sv);
    }
    let icon = aggregate_icon_state(playing.len() > 0, states.as_slice());
    let tip = tooltip(playing, icon_word(icon));
    TrayContents { global_status: g, rows, tooltip: tip, icon }
}

/// What a click on a tray entry asks for.
#[derive(Debug, Clone, PartialEq)]
pub enum TrayAction {
    Show,
    Quit,
    Add,
    SetGlobal(String),
    SetServer { server_id: String, status: String },
    Unlink(String),
    Nothing,
}

/// The position of the last `:`.
pub open spec fn last_colon(s: Seq<char>) -> Option<int>
    decreases s.len(),
{
    if s.len() == 0 {
        None
    } else if s.last() == ':' {
        Some(s.len() - 1)
    } else {
        last_colon(s.drop_last())
    }
}

/// What the entry with this id asks for, as text: `g:` sets the global
/// status, `s:<server>:<status>` a server's override (split at the last
/// `:`), `u:` unlinks a server.
pub enum ActionView {
    Show,
    Quit,
    Add,
    SetGlobal(Seq<char>),
    SetServer(Seq<char>, Seq<char>),
    Unlink(Seq<char>),
    Nothing,
}

pub open spec fn spec_action(id: Seq<char>) -> ActionView {
    let prefixed = |p: Seq<char>| id.len() >= 2 && id.take(2) == p;
    if id == "show"@ {
        ActionView::Show
    } else if id == "quit"@ {
        ActionView::Quit
    } else if id == "add"@ {
        ActionView::Add
    } else if prefixed("g:"@) {
        ActionView::SetGlobal(id.skip(2))
    } else if prefixed("s:"@) {
        let rest = id.skip(2);
        match last_colon(rest) {
            Some(p) => ActionView::SetServer(rest.take(p), rest.skip(p + 1)),
            None => ActionView::Nothing,
        }
    } else if prefixed("u:"@) {
        ActionView::Unlink(id.skip(2))
    } else {
        ActionView::Nothing
    }
}

pub open spec fn action_view(a: TrayAction) -> ActionView {
    match a {
        TrayAction::Show => ActionView::Show,
        TrayAction::Quit => ActionView::Quit,
        TrayAction::Add => ActionView::Add,
        TrayAction::SetGlobal(s) => ActionView::SetGlobal(s@),
        TrayAction::SetServer { server_id, status } => ActionView::SetServer(server_id@, status@),
        TrayAction::Unlink(s) => ActionView::Unlink(s@),
        TrayAction::Nothing => ActionView::Nothing,
    }
}

fn last_colon_in(s: &[char]) -> (r: Option<usize>)
    ensures
        r matches Some(i) ==> last_colon(s@) == Some(i as int) && i < s@.len(),
        r is None ==> last_colon(s@) is None,
{
    let mut n = s.len();
    proof {
        assert(s@.take(n as int) =~= s@);
    }
    while n > 0
        invariant
            n <= s@.len(),
            last_colon(s@) == last_colon(s@.take(n as int)),
        decreases n,
    {
        if s[n - 1] == ':' {
            return Some(n - 1);
        }
        proof {
            assert(s@.take(n as int).drop_last() =~= s@.take(n - 1));
        }
        n = n - 1;
    }
    None
}

/// What a click on the tray entry with this id asks for.
pub fn menu_action(id: &str) -> (r: TrayAction)
    ensures
        action_view(r) == spec_action(id@),
{
    let cs = chars_of(id);
    let n = cs.len();
    if str_eq(id, "show") {
        return TrayAction::Show;
    }
    if str_eq(id, "quit") {
        return TrayAction::Quit;
    }
    if str_eq(id, "add") {
        return TrayAction::Add;
    }
    if n < 2 {
        return TrayAction::Nothing;
    }
    proof {
        assert(cs@.subrange(2, n as int) =~= cs@.skip(2));
        reveal_strlit("g:");
        reveal_strlit("s:");
        reveal_strlit("u:");
        assert(cs@.take(2) =~= seq![cs@[0], cs@[1]]);
    }
    let rest = &cs.as_slice()[2..n];
    let mut tail = String::new();
    if cs[0] == 'g' && cs[1] == ':' {
        append_chars(&mut tail, rest);
        proof {
            assert(tail@ =~= id@.skip(2));
            assert(id@.take(2) == "g:"@);
        }
        return TrayAction::SetGlobal(tail);
    }
    if cs[0] == 's' && cs[1] == ':' {
        return match last_colon_in(rest) {
            Some(p) => {
                let rn = rest.len();
                let mut sid = String::new();
                let mut st = String::new();
                proof {
                    assert(rest@.subrange(0, p as int) =~= rest@.take(p as int));
                    assert(rest@.subrange(p + 1, rn as int) =~= rest@.skip(p + 1));
                }
                append_chars(&mut sid, &rest[0..p]);
                append_chars(&mut st, &rest[p + 1..rn]);
                proof {
                    assert(sid@ =~= rest@.take(p as int));
                    assert(st@ =~= rest@.skip(p + 1));
                    assert(id@.take(2) == "s:"@);
                    assert(id@.take(2) != "g:"@);
                }
                TrayAction::SetServer { server_id: sid, status: st }
            },
            None => {
                proof {
                    assert(id@.take(2) == "s:"@);
                    assert(id@.take(2) != "g:"@);
                }
                TrayAction::Nothing
            },
        };
    }
    if cs[0] == 'u' && cs[1] == ':' {
        append_chars(&mut tail, rest);
        proof {
            assert(tail@ =~= id@.skip(2));
            assert(id@.take(2) == "u:"@);
        }
        return TrayAction::Unlink(tail);
    }
    TrayAction::Nothing
}

/// Whether a global status is one the member may pick.
pub fn is_global_status(s: &str) -> (r: bool)
    ensures
        r == (s@ == "online"@ || s@ == "invisible"@ || s@ == "offline"@),
{
    str_eq(s, "online") || str_eq(s, "invisible") || str_eq(s, "offline")
}

/// Whether a server override is one the member may pick.
pub fn is_override_status(s: &str) -> (r: bool)
    ensures
        r == (s@ == "inherit"@ || s@ == "online"@ || s@ == "invisible"@ || s@ == "offline"@),
{
    str_eq(s, "inherit") || is_global_status(s)
}

// ---------------------------------------------------------------------------
// Linking a server

/// What one answer to the pairing poll leads to.
pub enum PairStep {
    /// Still pending: poll again.
    Wait,
    /// Approved with both tokens: link the server with them.
    Link { access: String, refresh: String },
    /// Approved but without both tokens: stop, linking nothing.
    Stop,
    /// Denied or expired: tell the member, and stop.
    Failed,
}

/// What one answer to the pairing poll leads to.
pub fn pair_step(status: &str, access: Option<String>, refresh: Option<String>) -> (r: PairStep)
    ensures
        status@ == "pending"@ ==> r is Wait,
        status@ == "complete"@ ==> match r {
            PairStep::Link { access: x, refresh: y } => access == Some(x) && refresh == Some(y),
            PairStep::Stop => access is None || refresh is None,
            _ => false,
        },
        status@ != "pending"@ && status@ != "complete"@ ==> r is Failed,
{
    proof {
        reveal_strlit("pending");
        reveal_strlit("complete");
    }
    if str_eq(status, "pending") {
        proof {
            reveal_strlit("pending");
            reveal_strlit("complete");
            assert("pending"@.len() != "complete"@.len());
        }
        PairStep::Wait
    } else if str_eq(status, "complete") {
        if access.is_some() && refresh.is_some() {
            PairStep::Link { access: access.unwrap(), refresh: refresh.unwrap() }
        } else {
            PairStep::Stop
        }
    } else {
        PairStep::Failed
    }
}

/// The pairing poll's interval in seconds, never below one.
pub fn poll_interval(interval: u64) -> (r: u64)
    ensures
        r == if interval < 1 { 1 } else { interval },
{
    if interval < 1 {
        1
    } else {
        interval
    }
}

proof fn lemma_last_colon_join(x: Seq<char>, y: Seq<char>)
    requires
        forall|k: int| 0 <= k < y.len() ==> #[trigger] y[k] != ':',
    ensures
        last_colon(x + ":"@ + y) == Some(x.len() as int),
    decreases y.len(),
{
    reveal_strlit(":");
    let s = x + ":"@ + y;
    if y.len() == 0 {
        assert(s.len() == x.len() + 1);
        assert(s[s.len() - 1] == ':');
    } else {
        let shorter = y.drop_last();
        assert forall|k: int| 0 <= k < shorter.len() implies #[trigger] shorter[k] != ':' by {
            assert(shorter[k] == y[k]);
        }
        lemma_last_colon_join(x, shorter);
        assert(s.drop_last() =~= x + ":"@ + shorter);
        assert(s.last() == y[y.len() - 1]);
    }
}

/// What a click on a choice entry asks for: the override `value` for this
/// server, whatever its id (a `:` in it included).
proof fn lemma_choice_action(id: Seq<char>, value: Seq<char>)
    requires
        forall|k: int| 0 <= k < value.len() ==> #[trigger] value[k] != ':',
    ensures
        spec_action("s:"@ + id + ":"@ + value) == ActionView::SetServer(id, value),
{
    reveal_strlit("s:");
    reveal_strlit("g:");
    reveal_strlit("show");
    reveal_strlit("quit");
    reveal_strlit("add");
    reveal_strlit(":");
    let e = "s:"@ + id + ":"@ + value;
    assert(e[0] == 's' && e[1] == ':');
    assert(e.take(2) =~= "s:"@);
    assert(e.skip(2) =~= id + ":"@ + value);
    lemma_last_colon_join(id, value);
    let rest = e.skip(2);
    assert(rest.take(id.len() as int) =~= id);
    assert(rest.skip(id.len() + 1int) =~= value);
    assert(e != "show"@ && e != "quit"@ && e != "add"@) by {
        assert("show"@[1] == 'h' && "quit"@[0] == 'q' && "add"@[0] == 'a');
    }
    assert(!(e.take(2) == "g:"@)) by {
        assert("g:"@[0] == 'g');
    }
}

/// Each row of `tray_contents` acts on its own server: its four choices,
/// clicked, set that server's override to `inherit`, `online`, `invisible`
/// and `offline` through `menu_action`, exactly the one naming the override
/// in force is checked, and its unlink entry unlinks that server.
pub proof fn law_a_rows_entries_act_on_its_server(global: Seq<char>, s: ServerInputView)
    ensures
        ({
            let row = spec_row(global, s);
            let values = seq!["inherit"@, "online"@, "invisible"@, "offline"@];
            &&& row.choices.len() == 4
            &&& forall|j: int| 0 <= j < 4 ==> spec_action(#[trigger] row.choices[j].0) == ActionView::SetServer(s.id, values[j])
            &&& forall|j: int| 0 <= j < 4 ==> (#[trigger] row.choices[j]).2 == (s.status_override == values[j])
            &&& spec_action(row.unlink_id) == ActionView::Unlink(s.id)
        }),
{
    reveal_strlit("inherit");
    reveal_strlit("online");
    reveal_strlit("invisible");
    reveal_strlit("offline");
    reveal_strlit("u:");
    reveal_strlit("s:");
    reveal_strlit("g:");
    reveal_strlit("show");
    reveal_strlit("quit");
    reveal_strlit("add");
    let values = seq!["inherit"@, "online"@, "invisible"@, "offline"@];
    lemma_choice_action(s.id, "inherit"@);
    lemma_choice_action(s.id, "online"@);
    lemma_choice_action(s.id, "invisible"@);
    lemma_choice_action(s.id, "offline"@);
    let row = spec_row(global, s);
    assert forall|j: int| 0 <= j < 4 implies spec_action(#[trigger] row.choices[j].0) == ActionView::SetServer(s.id, values[j]) by {
        if j == 0 {
        } else if j == 1 {
        } else if j == 2 {
        } else {
        }
    }
    let u = "u:"@ + s.id;
    assert(u.take(2) =~= "u:"@);
    assert(u.skip(2) =~= s.id);
    assert(u != "show"@ && u != "quit"@ && u != "add"@) by {
        assert(u[0] == 'u');
    }
    assert(u.take(2)[0] == 'u' && "g:"@[0] == 'g' && "s:"@[0] == 's');
    assert(!(u.take(2) == "g:"@) && !(u.take(2) == "s:"@));
}

/// A server's row and the tray icon tell the same story: with that server
/// alone, its row says `offline` exactly when the icon shows offline; and
/// when it is online, its row says `reconnecting` exactly when the icon
/// turns red, in game or not. (An invisible server's row keeps saying
/// `invisible`.)
pub proof fn law_the_row_word_agrees_with_the_icon(in_game: bool, eff: Seq<char>, conn: Option<Seq<char>>)
    requires
        eff == "online"@ || eff == "invisible"@ || eff == "offline"@,
    ensures
        ({
            let word = spec_state_word(eff, conn);
            let icon = spec_aggregate(in_game, seq![(eff, match conn {
                Some(c) => c,
                None => seq![],
            })]);
            &&& (word == "offline"@) == (icon == IconState::Offline)
            &&& eff == "online"@ ==> (word == "reconnecting"@) == (icon == IconState::Problem)
            &&& eff == "invisible"@ ==> word == "invisible"@
        }),
{
    reveal_strlit("online");
    reveal_strlit("invisible");
    reveal_strlit("offline");
    reveal_strlit("reconnecting");
    reveal_strlit("connecting");
    reveal_strlit("disconnected");
    reveal_strlit("connected");
    let c: Seq<char> = match conn {
        Some(c) => c,
        None => seq![],
    };
    let s = seq![(eff, c)];
    assert(s[0] == (eff, c));
    assert("offline"@.len() == 7 && "online"@.len() == 6 && "invisible"@.len() == 9);
    assert("reconnecting"@.len() == 12 && "connecting"@.len() == 10);
    assert("connected"@.len() == 9 && "disconnected"@.len() == 12);
    assert("offline"@[1] != "online"@[1]);
    assert(crate::status::reports(s[0].0) == crate::status::reports(eff));
    if crate::status::reports(eff) && c == "disconnected"@ {
        assert(exists|i: int| 0 <= i < s.len() && #[trigger] crate::status::reports(s[i].0) && s[i].1 == "disconnected"@);
    }
}

} // verus!
