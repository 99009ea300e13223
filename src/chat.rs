use vstd::prelude::*;
use vstd::string::StringExecFns;
use crate::history::{extends, lemma_extends_reflexive, lines_of, message_block, HistoryLog};
use crate::input::{command_of, interpret, Command, CommandView};
use crate::render::{clamp_bias, lemma_clamped_bias_in_bounds, lemma_overflow_bounded, overflow_for, scroll_position};
use russh_keys::key::parse_public_key;

verus! {

/// The fingerprint of the public key that an SSH wire encoding holds, or
/// `None` where the bytes hold no key.
pub uninterp spec fn key_fingerprint_of(blob: Seq<u8>) -> Option<Seq<char>>;

/// Relies on russh_keys' parse_public_key, which reads a key from its SSH
/// wire encoding, and PublicKey::fingerprint, which gives the key's SHA-256
/// digest in base64; both depend on the bytes alone.
#[verifier::external_body]
fn fingerprint_of_blob(blob: &[u8]) -> (r: Option<String>)
    ensures
        r is None <==> key_fingerprint_of(blob@) is None,
        r matches Some(f) ==> key_fingerprint_of(blob@) == Some(f@),
{
    match parse_public_key(blob) {
        Ok(key) => Some(key.fingerprint()),
        Err(_) => None,
    }
}

/// Relies on String::pop: takes the last character off, if there is one.
#[verifier::external_body]
fn pop_char(s: &mut String) -> (r: Option<char>)
    ensures
        old(s)@.len() == 0 ==> r is None && final(s)@ == old(s)@,
        old(s)@.len() > 0 ==> r == Some(old(s)@.last()) && final(s)@ == old(s)@.drop_last(),
{
    s.pop()
}

/// Why an event could not be handled; each ends the connection it came from.
#[derive(Debug, Clone, Copy, PartialEq, Eq, Structural)]
pub enum ChatError {
    /// A channel opened for an id with no authentication on record.
    AuthRecordMissing,
    /// An event arrived for an id with no live session.
    SessionNotFound,
    /// The credential on record is no public key.
    InvalidCredential,
}

/// One live connection.
pub struct Session {
    pub id: u64,
    pub identity: String,
    pub fingerprint: String,
    pub input: String,
    pub scroll_bias: i128,
    pub width: u16,
    pub height: u16,
}

/// The mathematical counterpart of [`Session`].
pub struct SessionView {
    pub id: u64,
    pub identity: Seq<char>,
    pub fingerprint: Seq<char>,
    pub input: Seq<char>,
    pub scroll_bias: int,
    pub width: u16,
    pub height: u16,
}

impl View for Session {
    type V = SessionView;

    open spec fn view(&self) -> SessionView {
        SessionView {
            id: self.id,
            identity: self.identity@,
            fingerprint: self.fingerprint@,
            input: self.input@,
            scroll_bias: self.scroll_bias as int,
            width: self.width,
            height: self.height,
        }
    }
}

/// Everything that is needed to draw one session's screen.
pub struct Frame {
    /// The session that the frame is for.
    pub session: u64,
    /// Rows of wrapped history above the first one shown.
    pub scroll_offset: u128,
    /// The session's unsent message.
    pub input: String,
    /// The history as it stood when the frame was made.
    pub history: Vec<String>,
}

/// The mathematical counterpart of [`Frame`].
pub struct FrameView {
    pub session: u64,
    pub scroll_offset: int,
    pub input: Seq<char>,
    pub history: Seq<Seq<char>>,
}

impl View for Frame {
    type V = FrameView;

    open spec fn view(&self) -> FrameView {
        FrameView {
            session: self.session,
            scroll_offset: self.scroll_offset as int,
            input: self.input@,
            history: lines_of(self.history@),
        }
    }
}

/// What the transport has to do after an input event.
pub enum Reaction {
    /// Close the session's channel; its entry is gone.
    Close,
    /// Draw and send each of these frames.
    Frames(Vec<Frame>),
}

/// An authentication waiting for its channel to open.
struct Pending {
    id: u64,
    identity: String,
    key: Vec<u8>,
}

/// The session with its bias brought into bounds for history `h`.
pub open spec fn rendered(s: SessionView, h: Seq<Seq<char>>) -> SessionView {
    SessionView { scroll_bias: clamp_bias(s.scroll_bias, overflow_for(h, s.width, s.height)), ..s }
}

/// The frame of a session whose bias is already in bounds for history `h`.
pub open spec fn frame_of(s: SessionView, h: Seq<Seq<char>>) -> FrameView {
    FrameView {
        session: s.id,
        scroll_offset: overflow_for(h, s.width, s.height) + s.scroll_bias,
        input: s.input,
        history: h,
    }
}

/// Whether a command from this session adds a message to the history.
pub open spec fn posts(s: SessionView, cmd: CommandView) -> bool {
    cmd is Submit && s.input.len() > 0
}

/// The sender's state after a command, before its bias is clamped.
pub open spec fn edit(s: SessionView, cmd: CommandView) -> SessionView {
    match cmd {
        CommandView::Submit => if s.input.len() > 0 {
            SessionView { input: Seq::empty(), ..s }
        } else {
            s
        },
        CommandView::DeleteLastChar => if s.input.len() > 0 {
            SessionView { input: s.input.drop_last(), ..s }
        } else {
            s
        },
        CommandView::ScrollBack(n) => SessionView {
            scroll_bias: s.scroll_bias - n,
            ..s
        },
        CommandView::ScrollForward(n) => SessionView {
            scroll_bias: s.scroll_bias + n,
            ..s
        },
        CommandView::AppendText(t) => SessionView { input: s.input + t, ..s },
        CommandView::Disconnect => s,
    }
}

/// The history after a command of session `s`.
pub open spec fn history_after(s: SessionView, cmd: CommandView, h: Seq<Seq<char>>) -> Seq<Seq<char>> {
    if posts(s, cmd) {
        h + message_block(s.fingerprint, s.identity, s.input)
    } else {
        h
    }
}

/// The registry after a command other than a disconnect from session `i`:
/// the sender edited, then every session whose view must be redrawn, which
/// is all of them when a message was posted and the sender alone otherwise,
/// brought into bounds for the new history.
pub open spec fn sessions_after(s: Seq<SessionView>, h: Seq<Seq<char>>, i: int, cmd: CommandView) -> Seq<SessionView> {
    let pre = s.update(i, edit(s[i], cmd));
    let h2 = history_after(s[i], cmd, h);
    if posts(s[i], cmd) {
        pre.map_values(|v: SessionView| rendered(v, h2))
    } else {
        pre.update(i, rendered(pre[i], h2))
    }
}

/// The frames to send after such a command: one for every session when a
/// message was posted, else one for the sender.
pub open spec fn frames_after(after: Seq<SessionView>, h2: Seq<Seq<char>>, i: int, broadcast: bool) -> Seq<FrameView> {
    if broadcast {
        after.map_values(|v: SessionView| frame_of(v, h2))
    } else {
        seq![frame_of(after[i], h2)]
    }
}

/// The views of a sequence of frames.
pub open spec fn frame_views(fs: Seq<Frame>) -> Seq<FrameView> {
    fs.map_values(|f: Frame| f@)
}

/// A newly opened session: empty input, at the bottom of the history.
pub open spec fn fresh_session(id: u64, identity: Seq<char>, fingerprint: Seq<char>, width: u16, height: u16) -> SessionView {
    SessionView { id, identity, fingerprint, input: Seq::empty(), scroll_bias: 0, width, height }
}

/// The session's bias lies in `[-overflow, 0]` for history `h`.
pub open spec fn in_bounds(s: SessionView, h: Seq<Seq<char>>) -> bool {
    -overflow_for(h, s.width, s.height) <= s.scroll_bias <= 0
}

/// No two sessions share an id.
pub open spec fn ids_distinct(s: Seq<SessionView>) -> bool {
    forall|a: int, b: int| 0 <= a < b < s.len() ==> s[a].id != s[b].id
}

/// Replacing a session by one with the same id keeps ids distinct.
proof fn lemma_distinct_update(s: Seq<SessionView>, i: int, v: SessionView)
    requires
        ids_distinct(s),
        0 <= i < s.len(),
        v.id == s[i].id,
    ensures
        ids_distinct(s.update(i, v)),
{
    let t = s.update(i, v);
    assert forall|a: int, b: int| 0 <= a < b < t.len() implies t[a].id != t[b].id by {
        assert(t[a].id == s[a].id);
        assert(t[b].id == s[b].id);
    }
}

/// Removing a session keeps ids distinct.
proof fn lemma_distinct_remove(s: Seq<SessionView>, i: int)
    requires
        ids_distinct(s),
        0 <= i < s.len(),
    ensures
        ids_distinct(s.remove(i)),
{
    let t = s.remove(i);
    assert forall|a: int, b: int| 0 <= a < b < t.len() implies t[a].id != t[b].id by {
        let oa = if a < i { a } else { a + 1 };
        let ob = if b < i { b } else { b + 1 };
        assert(t[a] == s[oa]);
        assert(t[b] == s[ob]);
    }
}

/// Whether a session with this id is live.
pub open spec fn is_live(s: Seq<SessionView>, id: u64) -> bool {
    exists|i: int| 0 <= i < s.len() && s[i].id == id
}

/// The position of the live session with this id.
pub open spec fn index_of(s: Seq<SessionView>, id: u64) -> int {
    choose|i: int| 0 <= i < s.len() && s[i].id == id
}

/// The ids of the live sessions.
pub open spec fn live_ids(s: Seq<SessionView>) -> Set<u64> {
    Set::new(|id: u64| is_live(s, id))
}

/// Whether an authentication is on record for this id.
pub open spec fn is_pending(p: Seq<(u64, Seq<char>, Seq<u8>)>, id: u64) -> bool {
    exists|k: int| 0 <= k < p.len() && p[k].0 == id
}

/// The position of the pending authentication for this id.
pub open spec fn pending_index(p: Seq<(u64, Seq<char>, Seq<u8>)>, id: u64) -> int {
    choose|k: int| 0 <= k < p.len() && p[k].0 == id
}

/// Every redrawn session has its bias in `[-overflow, 0]` for the history it
/// was drawn with, and its frame starts between the top and the bottom.
pub proof fn lemma_redrawn_bias_in_bounds(s: SessionView, h: Seq<Seq<char>>)
    ensures
        in_bounds(rendered(s, h), h),
        0 <= frame_of(rendered(s, h), h).scroll_offset <= overflow_for(h, s.width, s.height),
{
    let o = overflow_for(h, s.width, s.height);
    assert(o >= 0);
    lemma_clamped_bias_in_bounds(s.scroll_bias, o);
}

/// Deleting from an empty input changes nothing, and otherwise takes off
/// exactly one character.
pub proof fn lemma_delete_last_char(s: SessionView)
    ensures
        s.input.len() == 0 ==> edit(s, CommandView::DeleteLastChar) == s,
        s.input.len() > 0 ==> edit(s, CommandView::DeleteLastChar).input.len() == s.input.len() - 1,
{
}

/// A message submitted by session `i` is in the history of the frame that
/// every live session is sent next, with no action of its own.
pub proof fn lemma_post_reaches_every_session(s: Seq<SessionView>, h: Seq<Seq<char>>, i: int)
    requires
        0 <= i < s.len(),
        s[i].input.len() > 0,
    ensures
        ({
            let h2 = history_after(s[i], CommandView::Submit, h);
            let fs = frames_after(sessions_after(s, h, i, CommandView::Submit), h2, i, posts(s[i], CommandView::Submit));
            &&& h2 == h + message_block(s[i].fingerprint, s[i].identity, s[i].input)
            &&& fs.len() == s.len()
            &&& forall|j: int| 0 <= j < s.len() ==> fs[j].session == s[j].id && fs[j].history == h2
        }),
{
}

/// A disconnect takes exactly the sender's entry out of the registry.
pub proof fn lemma_disconnect_removes_one(s: Seq<SessionView>, id: u64)
    requires
        ids_distinct(s),
        is_live(s, id),
    ensures
        s.remove(index_of(s, id)).len() == s.len() - 1,
        live_ids(s.remove(index_of(s, id))) == live_ids(s).remove(id),
{
    let i = index_of(s, id);
    let t = s.remove(i);
    assert forall|x: u64| live_ids(t).contains(x) <==> live_ids(s).remove(id).contains(x) by {
        if is_live(t, x) {
            let a = choose|a: int| 0 <= a < t.len() && t[a].id == x;
            let oa = if a < i { a } else { a + 1 };
            assert(t[a] == s[oa]);
        }
        if is_live(s, x) && x != id {
            let b = choose|b: int| 0 <= b < s.len() && s[b].id == x;
            assert(b != i);
            let tb = if b < i { b } else { b - 1 };
            assert(t[tb] == s[b]);
        }
    }
    assert(live_ids(t) =~= live_ids(s).remove(id));
}

/// The coordinator: live sessions, pending authentications and the shared
/// history, with every rule for changing them.
///
/// Sessions and pending records are kept in vectors with unique ids rather
/// than in maps keyed by id: a vector gives the broadcast frames a fixed
/// order (the order in which sessions joined), which the contracts state.
pub struct Chat {
    sessions: Vec<Session>,
    pending: Vec<Pending>,
    history: HistoryLog,
    next_id: u64,
}

impl Chat {
    /// The live sessions, in the order they joined.
    pub closed spec fn sessions(&self) -> Seq<SessionView> {
        self.sessions@.map_values(|s: Session| s@)
    }

    /// The pending authentications: id, identity, and the public key in its
    /// SSH wire encoding.
    pub closed spec fn pending(&self) -> Seq<(u64, Seq<char>, Seq<u8>)> {
        self.pending@.map_values(|p: Pending| (p.id, p.identity@, p.key@))
    }

    /// The shared history.
    pub closed spec fn history(&self) -> Seq<Seq<char>> {
        self.history@
    }

    /// The id that the next connection gets.
    pub closed spec fn next_id(&self) -> u64 {
        self.next_id
    }

    /// Ids are unique among sessions and among pending records.
    pub open spec fn ids_ok(&self) -> bool {
        &&& ids_distinct(self.sessions())
        &&& forall|a: int, b: int|
            0 <= a < b < self.pending().len() ==> self.pending()[a].0 != self.pending()[b].0
    }

    /// Ids are unique, and every session's bias is in bounds for the
    /// current history.
    pub open spec fn wf(&self) -> bool {
        &&& self.ids_ok()
        &&& forall|i: int| 0 <= i < self.sessions().len() ==> #[trigger] in_bounds(self.sessions()[i], self.history())
    }

    /// A coordinator with no sessions and an empty history.
    pub fn new() -> (r: Chat)
        ensures
            r.wf(),
            r.sessions() == Seq::<SessionView>::empty(),
            r.pending() == Seq::<(u64, Seq<char>, Seq<u8>)>::empty(),
            r.history() == Seq::<Seq<char>>::empty(),
            r.next_id() == 0,
    {
        let r = Chat { sessions: Vec::new(), pending: Vec::new(), history: HistoryLog::new(), next_id: 0 };
        assert(r.sessions() =~= Seq::<SessionView>::empty());
        assert(r.pending() =~= Seq::<(u64, Seq<char>, Seq<u8>)>::empty());
        r
    }

    /// The shared history.
    pub fn history_log(&self) -> (r: &HistoryLog)
        ensures
            r@ == self.history(),
    {
        &self.history
    }

    /// Hands out a fresh id for a new connection, or `None` once every id
    /// has been used.
    pub fn issue_id(&mut self) -> (r: Option<u64>)
        ensures
            old(self).next_id() < u64::MAX ==> r == Some(old(self).next_id())
                && final(self).next_id() == old(self).next_id() + 1,
            old(self).next_id() == u64::MAX ==> r is None && final(self).next_id() == old(self).next_id(),
            final(self).sessions() == old(self).sessions(),
            final(self).pending() == old(self).pending(),
            final(self).history() == old(self).history(),
    {
        if self.next_id == u64::MAX {
            return None;
        }
        let r = self.next_id;
        self.next_id = self.next_id + 1;
        Some(r)
    }

    /// The position of the live session with this id, if there is one.
    fn find_session(&self, id: u64) -> (r: Option<usize>)
        ensures
            r is None <==> !is_live(self.sessions(), id),
            r matches Some(i) ==> i < self.sessions().len() && self.sessions()[i as int].id == id,
    {
        let mut i: usize = 0;
        while i < self.sessions.len()
            invariant
                i <= self.sessions@.len(),
                forall|k: int| 0 <= k < i ==> self.sessions()[k].id != id,
            decreases self.sessions@.len() - i,
        {
            if self.sessions[i].id == id {
                assert(self.sessions()[i as int].id == id);
                return Some(i);
            }
            i = i + 1;
        }
        None
    }

    /// The position of the pending authentication for this id, if any.
    fn find_pending(&self, id: u64) -> (r: Option<usize>)
        ensures
            r is None <==> !is_pending(self.pending(), id),
            r matches Some(k) ==> k < self.pending().len() && self.pending()[k as int].0 == id,
    {
        let mut k: usize = 0;
        while k < self.pending.len()
            invariant
                k <= self.pending@.len(),
                forall|j: int| 0 <= j < k ==> self.pending()[j].0 != id,
            decreases self.pending@.len() - k,
        {
            if self.pending[k].id == id {
                assert(self.pending()[k as int].0 == id);
                return Some(k);
            }
            k = k + 1;
        }
        None
    }
    /// Brings the bias of session `i` into bounds for the current history
    /// and makes its frame.
    fn render_at(&mut self, i: usize) -> (r: Frame)
        requires
            old(self).ids_ok(),
            i < old(self).sessions().len(),
        ensures
            final(self).ids_ok(),
            in_bounds(final(self).sessions()[i as int], old(self).history()),
            final(self).sessions() == old(self).sessions().update(
                i as int,
                rendered(old(self).sessions()[i as int], old(self).history()),
            ),
            final(self).pending() == old(self).pending(),
            final(self).history() == old(self).history(),
            final(self).next_id() == old(self).next_id(),
            r@ == frame_of(final(self).sessions()[i as int], old(self).history()),
    {
        let snap = self.history.snapshot();
        let pos = scroll_position(&snap, self.sessions[i].width, self.sessions[i].height, self.sessions[i].scroll_bias);
        self.sessions[i].scroll_bias = pos.bias;
        let frame = Frame {
            session: self.sessions[i].id,
            scroll_offset: pos.offset,
            input: self.sessions[i].input.clone(),
            history: snap,
        };
        assert(self.sessions() =~= old(self).sessions().update(
            i as int,
            rendered(old(self).sessions()[i as int], old(self).history()),
        ));
        assert(self.pending() =~= old(self).pending());
        proof {
            lemma_redrawn_bias_in_bounds(old(self).sessions()[i as int], old(self).history());
        }
        frame
    }

    /// Re-renders every live session, in order, for the current history.
    fn render_all(&mut self) -> (r: Vec<Frame>)
        requires
            old(self).ids_ok(),
        ensures
            final(self).wf(),
            final(self).sessions() == old(self).sessions().map_values(
                |s: SessionView| rendered(s, old(self).history()),
            ),
            final(self).pending() == old(self).pending(),
            final(self).history() == old(self).history(),
            final(self).next_id() == old(self).next_id(),
            frame_views(r@) == final(self).sessions().map_values(
                |s: SessionView| frame_of(s, old(self).history()),
            ),
    {
        let ghost start = self.sessions();
        let ghost h = self.history();
        let mut frames: Vec<Frame> = Vec::new();
        let mut i: usize = 0;
        while i < self.sessions.len()
            invariant
                self.ids_ok(),
                i <= self.sessions().len(),
                self.sessions().len() == start.len(),
                forall|k: int| 0 <= k < i ==> self.sessions()[k] == rendered(start[k], h),
                forall|k: int| 0 <= k < i ==> in_bounds(#[trigger] self.sessions()[k], h),
                forall|k: int| i <= k < start.len() ==> self.sessions()[k] == start[k],
                frames@.len() == i,
                forall|k: int| 0 <= k < i ==> frames@[k]@ == frame_of(self.sessions()[k], h),
                self.pending() == old(self).pending(),
                self.history() == h,
                self.next_id() == old(self).next_id(),
            decreases start.len() - i,
        {
            let f = self.render_at(i);
            frames.push(f);
            i = i + 1;
        }
        assert(self.sessions() =~= start.map_values(|s: SessionView| rendered(s, h)));
        assert(frame_views(frames@) =~= self.sessions().map_values(
            |s: SessionView| frame_of(s, h),
        ));
        frames
    }
    /// Records the identity and public key (in its SSH wire encoding) that a
    /// connection authenticated with. Any key is accepted; a second record for
    /// the same id replaces the first.
    pub fn record_auth(&mut self, id: u64, identity: String, key: Vec<u8>)
        requires
            old(self).wf(),
        ensures
            final(self).wf(),
            is_pending(old(self).pending(), id) ==> final(self).pending() == old(self).pending().update(
                pending_index(old(self).pending(), id),
                (id, identity@, key@),
            ),
            !is_pending(old(self).pending(), id) ==> final(self).pending() == old(self).pending().push(
                (id, identity@, key@),
            ),
            final(self).sessions() == old(self).sessions(),
            final(self).history() == old(self).history(),
            final(self).next_id() == old(self).next_id(),
    {
        let found = self.find_pending(id);
        let ghost ident = identity@;
        let ghost blob = key@;
        match found {
            Some(k) => {
                proof {
                    let j = pending_index(old(self).pending(), id);
                    assert(old(self).pending()[j].0 == id);
                }
                self.pending.set(k, Pending { id, identity, key });
                assert(self.pending() =~= old(self).pending().update(k as int, (id, ident, blob)));
            },
            None => {
                self.pending.push(Pending { id, identity, key });
                assert(self.pending() =~= old(self).pending().push((id, ident, blob)));
            },
        }
        assert(self.sessions() == old(self).sessions());
        assert(self.history() == old(self).history());
    }

    /// Opens the session of a connection that authenticated: its pending
    /// record is consumed, and the new session, shown with the fingerprint of
    /// the recorded key, starts with an empty input at the bottom of the
    /// history. A live session with the same id is replaced.
    pub fn open_session(&mut self, id: u64, width: u16, height: u16) -> (r: Result<Frame, ChatError>)
        requires
            old(self).wf(),
        ensures
            final(self).wf(),
            final(self).history() == old(self).history(),
            final(self).next_id() == old(self).next_id(),
            !is_pending(old(self).pending(), id) ==> r == Err::<Frame, ChatError>(ChatError::AuthRecordMissing)
                && final(self).sessions() == old(self).sessions()
                && final(self).pending() == old(self).pending(),
            is_pending(old(self).pending(), id) && key_fingerprint_of(
                old(self).pending()[pending_index(old(self).pending(), id)].2,
            ) is None ==> r == Err::<Frame, ChatError>(ChatError::InvalidCredential)
                && final(self).sessions() == old(self).sessions()
                && final(self).pending() == old(self).pending(),
            is_pending(old(self).pending(), id) && key_fingerprint_of(
                old(self).pending()[pending_index(old(self).pending(), id)].2,
            ) is Some ==> ({
                let k = pending_index(old(self).pending(), id);
                let pos = if is_live(old(self).sessions(), id) {
                    index_of(old(self).sessions(), id)
                } else {
                    old(self).sessions().len() as int
                };
                let s = final(self).sessions()[pos];
                &&& final(self).pending() == old(self).pending().remove(k)
                &&& s == fresh_session(
                    id,
                    old(self).pending()[k].1,
                    key_fingerprint_of(old(self).pending()[k].2)->0,
                    width,
                    height,
                )
                &&& final(self).sessions() == if is_live(old(self).sessions(), id) {
                    old(self).sessions().update(pos, s)
                } else {
                    old(self).sessions().push(s)
                }
                &&& r matches Ok(f) && f@ == frame_of(s, old(self).history())
            }),
    {
        let found = self.find_pending(id);
        let k = match found {
            None => return Err(ChatError::AuthRecordMissing),
            Some(k) => k,
        };
        proof {
            let j = pending_index(old(self).pending(), id);
            assert(old(self).pending()[j].0 == id);
        }
        let fingerprint = match fingerprint_of_blob(self.pending[k].key.as_slice()) {
            None => return Err(ChatError::InvalidCredential),
            Some(f) => f,
        };
        let p = self.pending.remove(k);
        assert(self.pending() =~= old(self).pending().remove(k as int));
        let session = Session {
            id,
            identity: p.identity,
            fingerprint,
            input: String::new(),
            scroll_bias: 0,
            width,
            height,
        };
        let ghost sv = session@;
        let live = self.find_session(id);
        let pos: usize = match live {
            Some(i) => {
                proof {
                    let j = index_of(old(self).sessions(), id);
                    assert(old(self).sessions()[j].id == id);
                }
                self.sessions.set(i, session);
                assert(self.sessions() =~= old(self).sessions().update(i as int, sv));
                i
            },
            None => {
                self.sessions.push(session);
                assert(self.sessions() =~= old(self).sessions().push(sv));
                self.sessions.len() - 1
            },
        };
        let ghost opened = self.sessions();
        assert(ids_distinct(self.sessions())) by {
            assert forall|a: int, b: int| 0 <= a < b < self.sessions().len() implies
                self.sessions()[a].id != self.sessions()[b].id by {
                if b == pos as int {
                    assert(old(self).sessions()[a].id != id || a == pos as int);
                }
            }
        }
        let f = self.render_at(pos);
        assert(self.sessions() =~= opened);
        assert forall|j: int| 0 <= j < self.sessions().len() implies #[trigger] in_bounds(
            self.sessions()[j],
            self.history(),
        ) by {
            if j != pos as int {
                assert(self.sessions()[j] == old(self).sessions()[j]);
                assert(in_bounds(old(self).sessions()[j], old(self).history()));
            }
        }
        Ok(f)
    }
    /// Handles one input event of session `id`. A disconnect removes the
    /// session and asks for its channel to be closed; a submitted message is
    /// appended to the history and every session is redrawn; any other
    /// command changes the sender alone and redraws it.
    pub fn handle_data(&mut self, id: u64, data: &[u8]) -> (r: Result<Reaction, ChatError>)
        requires
            old(self).wf(),
        ensures
            final(self).wf(),
            final(self).pending() == old(self).pending(),
            final(self).next_id() == old(self).next_id(),
            extends(old(self).history(), final(self).history()),
            !is_live(old(self).sessions(), id) ==> (r matches Err(e) && e == ChatError::SessionNotFound
                && final(self).sessions() == old(self).sessions()
                && final(self).history() == old(self).history()),
            is_live(old(self).sessions(), id) ==> ({
                let i = index_of(old(self).sessions(), id);
                let cmd = command_of(data@);
                let h2 = history_after(old(self).sessions()[i], cmd, old(self).history());
                if cmd is Disconnect {
                    &&& r matches Ok(Reaction::Close)
                    &&& final(self).sessions() == old(self).sessions().remove(i)
                    &&& final(self).history() == old(self).history()
                } else {
                    &&& final(self).history() == h2
                    &&& final(self).sessions() == sessions_after(old(self).sessions(), old(self).history(), i, cmd)
                    &&& r matches Ok(Reaction::Frames(fs)) && frame_views(fs@) == frames_after(
                        final(self).sessions(),
                        h2,
                        i,
                        posts(old(self).sessions()[i], cmd),
                    )
                }
            }),
    {
        proof {
            lemma_extends_reflexive(self.history());
        }
        let found = self.find_session(id);
        let i = match found {
            None => return Err(ChatError::SessionNotFound),
            Some(i) => i,
        };
        proof {
            let j = index_of(old(self).sessions(), id);
            assert(old(self).sessions()[j].id == id);
        }
        let ghost s0 = self.sessions()[i as int];
        let cmd = interpret(data);
        let ghost c = cmd@;
        match cmd {
            Command::Disconnect => {
                self.sessions.remove(i);
                assert(self.sessions() =~= old(self).sessions().remove(i as int));
                proof {
                    lemma_distinct_remove(old(self).sessions(), i as int);
                }
                assert(self.pending() == old(self).pending());
                return Ok(Reaction::Close);
            },
            Command::Submit => {
                if !self.sessions[i].input.as_str().is_empty() {
                    self.history.append_message(
                        &self.sessions[i].fingerprint,
                        &self.sessions[i].identity,
                        &self.sessions[i].input,
                    );
                    self.sessions[i].input = String::new();
                    assert(self.sessions() =~= old(self).sessions().update(i as int, edit(s0, c)));
                    proof {
                        lemma_distinct_update(old(self).sessions(), i as int, edit(s0, c));
                    }
                    assert(self.pending() == old(self).pending());
                    let frames = self.render_all();
                    assert(final(self).sessions() =~= sessions_after(old(self).sessions(), old(self).history(), i as int, c));
                    return Ok(Reaction::Frames(frames));
                }
            },
            Command::DeleteLastChar => {
                pop_char(&mut self.sessions[i].input);
            },
            Command::ScrollBack(n) => {
                let b = self.sessions[i].scroll_bias;
                proof {
                    assert(in_bounds(old(self).sessions()[i as int], old(self).history()));
                    lemma_overflow_bounded(old(self).history(), s0.width, s0.height);
                }
                self.sessions[i].scroll_bias = b - (n as i128);
            },
            Command::ScrollForward(n) => {
                let b = self.sessions[i].scroll_bias;
                proof {
                    assert(in_bounds(old(self).sessions()[i as int], old(self).history()));
                }
                self.sessions[i].scroll_bias = b + (n as i128);
            },
            Command::AppendText(t) => {
                self.sessions[i].input.append(t.as_str());
            },
        }
        assert(self.sessions() =~= old(self).sessions().update(i as int, edit(s0, c)));
        proof {
            lemma_distinct_update(old(self).sessions(), i as int, edit(s0, c));
        }
        assert(self.pending() == old(self).pending());
        let f = self.render_at(i);
        assert forall|j: int| 0 <= j < self.sessions().len() implies #[trigger] in_bounds(
            self.sessions()[j],
            self.history(),
        ) by {
            if j != i as int {
                assert(self.sessions()[j] == old(self).sessions()[j]);
                assert(in_bounds(old(self).sessions()[j], old(self).history()));
            }
        }
        let mut frames: Vec<Frame> = Vec::new();
        frames.push(f);
        assert(frame_views(frames@) =~= frames_after(self.sessions(), self.history(), i as int, false));
        assert(self.sessions() =~= sessions_after(old(self).sessions(), old(self).history(), i as int, c));
        Ok(Reaction::Frames(frames))
    }

    /// Changes the terminal size of session `id` and redraws it.
    pub fn resize(&mut self, id: u64, width: u16, height: u16) -> (r: Result<Frame, ChatError>)
        requires
            old(self).wf(),
        ensures
            final(self).wf(),
            final(self).pending() == old(self).pending(),
            final(self).next_id() == old(self).next_id(),
            final(self).history() == old(self).history(),
            !is_live(old(self).sessions(), id) ==> r == Err::<Frame, ChatError>(ChatError::SessionNotFound)
                && final(self).sessions() == old(self).sessions(),
            is_live(old(self).sessions(), id) ==> ({
                let i = index_of(old(self).sessions(), id);
                let s = SessionView { width, height, ..old(self).sessions()[i] };
                &&& final(self).sessions() == old(self).sessions().update(i, rendered(s, old(self).history()))
                &&& r matches Ok(f) && f@ == frame_of(final(self).sessions()[i], old(self).history())
            }),
    {
        let found = self.find_session(id);
        let i = match found {
            None => return Err(ChatError::SessionNotFound),
            Some(i) => i,
        };
        proof {
            let j = index_of(old(self).sessions(), id);
            assert(old(self).sessions()[j].id == id);
        }
        self.sessions[i].width = width;
        self.sessions[i].height = height;
        assert(self.sessions() =~= old(self).sessions().update(
            i as int,
            SessionView { width, height, ..old(self).sessions()[i as int] },
        ));
        proof {
            lemma_distinct_update(
                old(self).sessions(),
                i as int,
                SessionView { width, height, ..old(self).sessions()[i as int] },
            );
        }
        assert(self.pending() == old(self).pending());
        let f = self.render_at(i);
        assert forall|j: int| 0 <= j < self.sessions().len() implies #[trigger] in_bounds(
            self.sessions()[j],
            self.history(),
        ) by {
            if j != i as int {
                assert(self.sessions()[j] == old(self).sessions()[j]);
                assert(in_bounds(old(self).sessions()[j], old(self).history()));
            }
        }
        Ok(f)
    }
    /// The live session with this id, if there is one.
    pub fn session(&self, id: u64) -> (r: Option<&Session>)
        requires
            self.wf(),
        ensures
            r is None <==> !is_live(self.sessions(), id),
            r matches Some(v) ==> v@ == self.sessions()[index_of(self.sessions(), id)],
    {
        match self.find_session(id) {
            None => None,
            Some(i) => {
                proof {
                    let j = index_of(self.sessions(), id);
                    assert(self.sessions()[j].id == id);
                }
                Some(&self.sessions[i])
            },
        }
    }

    /// Number of live sessions.
    pub fn session_count(&self) -> (r: usize)
        ensures
            r == self.sessions().len(),
    {
        self.sessions.len()
    }
}

/// Between any two events, every live session's bias lies in
/// `[-overflow, 0]` for the history as it stands: the coordinator's methods
/// all keep `wf`, which says so.
pub proof fn lemma_every_bias_in_bounds(chat: &Chat, i: int)
    requires
        chat.wf(),
        0 <= i < chat.sessions().len(),
    ensures
        -overflow_for(chat.history(), chat.sessions()[i].width, chat.sessions()[i].height)
            <= chat.sessions()[i].scroll_bias <= 0,
{
    assert(in_bounds(chat.sessions()[i], chat.history()));
}

} // verus!
