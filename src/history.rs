use vstd::prelude::*;
use vstd::string::StringExecFns;

verus! {

/// The three lines that one submitted message adds to the history: the
/// sender's fingerprint, `identity: message`, and a blank separator.
pub open spec fn message_block(
    fingerprint: Seq<char>,
    identity: Seq<char>,
    message: Seq<char>,
) -> Seq<Seq<char>> {
    seq![fingerprint, identity + ": "@ + message, Seq::<char>::empty()]
}

/// `later` keeps all of `earlier` as its first lines, unchanged.
pub open spec fn extends(earlier: Seq<Seq<char>>, later: Seq<Seq<char>>) -> bool {
    earlier.len() <= later.len() && later.subrange(0, earlier.len() as int) == earlier
}

/// The lines of a vector of strings, as character sequences.
pub open spec fn lines_of(v: Seq<String>) -> Seq<Seq<char>> {
    v.map_values(|s: String| s@)
}

/// A history never loses or changes a line, however many steps are taken:
/// each step extends the log, and so does any chain of steps.
pub proof fn lemma_extends_transitive(a: Seq<Seq<char>>, b: Seq<Seq<char>>, c: Seq<Seq<char>>)
    requires
        extends(a, b),
        extends(b, c),
    ensures
        extends(a, c),
{
    assert(c.subrange(0, a.len() as int) =~= c.subrange(0, b.len() as int).subrange(
        0,
        a.len() as int,
    ));
}

/// Every log extends itself.
pub proof fn lemma_extends_reflexive(a: Seq<Seq<char>>)
    ensures
        extends(a, a),
{
    assert(a.subrange(0, a.len() as int) =~= a);
}

/// The shared, append-only record of chat lines.
pub struct HistoryLog {
    lines: Vec<String>,
}

impl View for HistoryLog {
    type V = Seq<Seq<char>>;

    closed spec fn view(&self) -> Seq<Seq<char>> {
        lines_of(self.lines@)
    }
}

impl HistoryLog {
    /// An empty log.
    pub fn new() -> (r: HistoryLog)
        ensures
            r@ == Seq::<Seq<char>>::empty(),
    {
        let r = HistoryLog { lines: Vec::new() };
        assert(r@ =~= Seq::<Seq<char>>::empty());
        r
    }

    /// Number of lines in the log.
    pub fn len(&self) -> (r: usize)
        ensures
            r == self@.len(),
    {
        self.lines.len()
    }

    /// A copy of every line, in order.
    pub fn snapshot(&self) -> (r: Vec<String>)
        ensures
            lines_of(r@) == self@,
    {
        let mut out: Vec<String> = Vec::new();
        let mut i: usize = 0;
        while i < self.lines.len()
            invariant
                i <= self.lines@.len(),
                out@.len() == i,
                forall|k: int| 0 <= k < i ==> #[trigger] out@[k]@ == self.lines@[k]@,
            decreases self.lines@.len() - i,
        {
            let line = self.lines[i].clone();
            out.push(line);
            i = i + 1;
        }
        assert(lines_of(out@) =~= lines_of(self.lines@));
        out
    }

    /// Appends the block of one message: fingerprint, `identity: message`,
    /// and a blank line.
    pub fn append_message(&mut self, fingerprint: &String, identity: &String, message: &String)
        ensures
            final(self)@ == old(self)@ + message_block(fingerprint@, identity@, message@),
            extends(old(self)@, final(self)@),
    {
        let mut said = identity.clone();
        said.append(": ");
        said.append(message.as_str());
        self.lines.push(fingerprint.clone());
        self.lines.push(said);
        self.lines.push(String::new());
        assert(final(self)@ =~= old(self)@ + message_block(fingerprint@, identity@, message@));
        assert(final(self)@.subrange(0, old(self)@.len() as int) =~= old(self)@);
    }
}

} // verus!
