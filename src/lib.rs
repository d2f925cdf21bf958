mod input;

use input::push_char;

pub use input::{is_ascii_ws, lemma_ws_end, lemma_ws_end_bounds, ws_end, BufferedInput};

use vstd::prelude::*;

verus! {

/// A token with a kind (usually an enum representing distinct token types) and its source text
#[derive(Debug)]
pub struct Token<K> {
    kind: K,
    text: String,
}

impl<K> Token<K> {
    /// The token's kind.
    pub closed spec fn spec_kind(&self) -> K {
        self.kind
    }

    /// The token's text.
    pub closed spec fn spec_text(&self) -> Seq<char> {
        self.text@
    }

    /// Create a new token with the given kind and text
    pub fn new(kind: K, text: String) -> (r: Token<K>)
        ensures
            r.spec_kind() == kind,
            r.spec_text() == text@,
    {
        Token { kind, text }
    }

    /// Return the token's kind (usually an enum)
    pub fn kind(&self) -> (r: &K)
        ensures
            *r == self.spec_kind(),
    {
        &self.kind
    }

    /// Return the token's text
    pub fn text(&self) -> (r: &String)
        ensures
            r@ == self.spec_text(),
    {
        &self.text
    }

    /// Give up the token, keeping its text
    pub fn into_text(self) -> (r: String)
        ensures
            r@ == self.spec_text(),
    {
        self.text
    }
}

/// Why a matcher could not classify a token.
#[derive(Debug)]
pub enum MatchError {
    /// The first character of a would-be token matches no rule.
    Unexpected(char),
    /// A rejection of the matcher's own, with its description.
    Custom(String),
}

/// The text that `MatchError::message` produces.
pub open spec fn message_of(e: MatchError) -> Seq<char> {
    match e {
        MatchError::Unexpected(c) => seq!['U', 'n', 'e', 'x', 'p', 'e', 'c', 't', 'e', 'd', ' ', '\'']
            + seq![c] + seq!['\'', '\n'],
        MatchError::Custom(msg) => msg@,
    }
}

impl MatchError {
    /// A line describing the failure for a reader.
    pub fn message(&self) -> (r: String)
        ensures
            r@ == message_of(*self),
    {
        match self {
            MatchError::Unexpected(c) => {
                let mut s = String::from_str("Unexpected '");
                push_char(&mut s, *c);
                s.append("'\n");
                proof {
                    reveal_strlit("Unexpected '");
                    reveal_strlit("'\n");
                    assert(s@ =~= message_of(*self));
                }
                s
            },
            MatchError::Custom(msg) => msg.clone(),
        }
    }
}

pub type MatchResult<T> = Result<T, MatchError>;

/// A matcher classifies a token from its first character, consuming from
/// `input` the characters that follow it in the token.
///
/// `input` is always fresh: its buffer holds just the first character.
pub trait Matcher<K> {
    /// What the matcher answers when handed `first_char` with a cursor over
    /// `source` that stands at `position` and buffers just `first_char`: the
    /// outcome, the position where it leaves the cursor, and what the buffer
    /// then holds. A verified implementation states it; one written outside
    /// Verus keeps this unspecified default and is not checked against it.
    closed spec fn answer(&self, first_char: char, source: Seq<char>, position: int) -> (
        MatchResult<K>,
        int,
        Seq<char>,
    ) {
        arbitrary()
    }

    /// An implementation answers as `answer` says. It may only move the
    /// cursor forward and add consumed characters to the buffer; it keeps what
    /// the buffer already holds.
    fn try_match(&self, first_char: char, input: &mut BufferedInput) -> (r: MatchResult<K>)
        requires
            old(input).wf(),
            old(input).buffered() == seq![first_char],
        ensures
            final(input).wf(),
            final(input).source() == old(input).source(),
            old(input).position() <= final(input).position(),
            old(input).buffered().len() <= final(input).buffered().len(),
            final(input).buffered().subrange(0, old(input).buffered().len() as int)
                == old(input).buffered(),
            final(input).buffered().len() - old(input).buffered().len() <= final(input).position()
                - old(input).position(),
            (r, final(input).position(), final(input).buffered()) == self.answer(
                first_char,
                old(input).source(),
                old(input).position(),
            ),
    ;
}

/// The matcher only accepts: the text it leaves in the buffer is exactly the
/// run of characters from the first one to where it stops.
pub open spec fn accepts_only<K, M: Matcher<K>>(m: M) -> bool {
    forall|c: char, src: Seq<char>, pos: int|
        1 <= pos <= src.len() && src[pos - 1] == c ==> #[trigger] m.answer(c, src, pos).2
            == src.subrange(pos - 1, m.answer(c, src, pos).1)
}

/// Where the next token starts: past any whitespace if that is skipped.
pub open spec fn token_start(src: Seq<char>, pos: int, skip_whitespace: bool) -> int {
    if skip_whitespace {
        ws_end(src, pos)
    } else {
        pos
    }
}

/// A lexer splits a source string into tokens using the given matcher
pub struct Lexer<M> {
    input: BufferedInput,
    matcher: M,
    skip_whitespace: bool,
    /// The skipped whitespace and the token texts produced so far, in order.
    emitted: Ghost<Seq<char>>,
    /// No pull has failed so far, and every token's text was exactly the
    /// characters consumed for it.
    faithful: Ghost<bool>,
}

impl<M> Lexer<M> {
    /// The characters of the source text.
    pub closed spec fn source(&self) -> Seq<char> {
        self.input.source()
    }

    /// The matcher that classifies this lexer's tokens.
    pub closed spec fn matcher(&self) -> M {
        self.matcher
    }

    /// The index of the first character not yet consumed.
    pub closed spec fn position(&self) -> int {
        self.input.position()
    }

    /// Whether whitespace before a token is skipped.
    pub closed spec fn skips_whitespace(&self) -> bool {
        self.skip_whitespace
    }

    /// The skipped whitespace and the token texts produced so far, concatenated.
    pub closed spec fn emitted(&self) -> Seq<char> {
        self.emitted@
    }

    /// No pull has failed so far, and every token's text was exactly the
    /// characters consumed for it.
    pub closed spec fn faithful(&self) -> bool {
        self.faithful@
    }

    /// The cursor is in bounds and its buffer empty between pulls; while the
    /// lexer is faithful, what it emitted is the source up to the cursor.
    pub closed spec fn wf(&self) -> bool {
        &&& self.input.wf()
        &&& self.input.buffered().len() == 0
        &&& self.faithful@ ==> self.emitted@ == self.input.source().subrange(
            0,
            self.input.position(),
        )
    }

    /// Where the next pull starts its token.
    pub open spec fn next_start(&self) -> int {
        token_start(self.source(), self.position(), self.skips_whitespace())
    }

    /// The relation between the lexer before a pull (`self`), after it
    /// (`after`), and the outcome `r` of the pull. The token starts at
    /// `next_start()`; its first character is accepted and handed, with the
    /// cursor, to the matcher, whose answer gives the token's kind and text,
    /// or the failure.
    pub open spec fn pulled<K>(&self, after: &Self, r: Option<MatchResult<Token<K>>>) -> bool
        where
            M: Matcher<K>,
    {
        let p0 = self.next_start();
        let src = self.source();
        let ans = self.matcher().answer(src[p0], src, p0 + 1);
        &&& after.source() == src
        &&& after.skips_whitespace() == self.skips_whitespace()
        &&& after.matcher() == self.matcher()
        &&& (r is None <==> p0 == src.len())
        &&& match r {
            None => {
                &&& after.position() == p0
                &&& after.emitted() == self.emitted() + src.subrange(self.position(), p0)
                &&& after.faithful() == self.faithful()
            },
            Some(Ok(tok)) => {
                &&& ans.0 matches Ok(k) && tok.spec_kind() == k
                &&& tok.spec_text() == ans.2
                &&& after.position() == ans.1
                &&& p0 < after.position()
                &&& 1 <= tok.spec_text().len() <= after.position() - p0
                &&& tok.spec_text()[0] == src[p0]
                &&& after.emitted() == self.emitted() + src.subrange(self.position(), p0)
                    + tok.spec_text()
                &&& after.faithful() == (self.faithful() && tok.spec_text() == src.subrange(
                    p0,
                    after.position(),
                ))
            },
            Some(Err(e)) => {
                &&& ans.0 == Err::<K, MatchError>(e)
                &&& after.position() == ans.1
                &&& p0 < after.position()
                &&& !after.faithful()
            },
        }
    }

    /// What a well-formed lexer's state tells its callers.
    pub proof fn lemma_wf(&self)
        requires
            self.wf(),
        ensures
            0 <= self.position() <= self.source().len(),
            self.position() <= self.next_start() <= self.source().len(),
            self.faithful() ==> self.emitted() == self.source().subrange(0, self.position()),
    {
        lemma_ws_end_bounds(self.source(), self.position());
    }

    /// Create a lexer over `input` that classifies tokens with `matcher`.
    pub fn new(input: &str, matcher: M, skip_whitespace: bool) -> (r: Lexer<M>)
        ensures
            r.wf(),
            r.source() == input@,
            r.position() == 0,
            r.skips_whitespace() == skip_whitespace,
            r.matcher() == matcher,
            r.emitted() == Seq::<char>::empty(),
            r.faithful(),
    {
        let input = BufferedInput::new(input);
        let r = Lexer {
            input,
            matcher,
            skip_whitespace,
            emitted: Ghost(Seq::empty()),
            faithful: Ghost(true),
        };
        assert(r.input.source().subrange(0, 0) =~= Seq::<char>::empty());
        r
    }

    /// Produce the next token, a failure, or `None` once the source is used up.
    ///
    /// After a failure the characters consumed for it are dropped, and a
    /// further pull starts from wherever the matcher left the cursor.
    pub fn next<K>(&mut self) -> (r: Option<MatchResult<Token<K>>>)
        where
            M: Matcher<K>,
        requires
            old(self).wf(),
        ensures
            final(self).wf(),
            old(self).pulled(&*final(self), r),
    {
        let ghost src = self.input.source();
        let ghost start = self.input.position();
        proof {
            lemma_ws_end_bounds(src, start);
        }
        // skip whitespace
        if self.skip_whitespace {
            self.input.skip_whitespace();
        }
        let ghost p0 = self.input.position();
        assert(p0 == old(self).next_start());
        // get first character
        let first_char = match self.input.accept() {
            Some(c) => c,
            None => {
                self.emitted = Ghost(self.emitted@ + src.subrange(start, p0));
                proof {
                    assert(src.subrange(0, start) + src.subrange(start, p0) =~= src.subrange(0, p0));
                }
                return None;
            },
        };
        assert(self.input.buffered() =~= seq![first_char]);
        // match a token kind and mark the end of the token
        let kind = match self.matcher.try_match(first_char, &mut self.input) {
            Ok(kind) => kind,
            Err(err) => {
                self.input.take_buffer();
                self.faithful = Ghost(false);
                return Some(Err(err));
            },
        };
        let text = self.input.take_buffer();
        let ghost p1 = self.input.position();
        proof {
            assert(text@.subrange(0, 1)[0] == text@[0]);
            let was = self.faithful@;
            self.emitted = Ghost(self.emitted@ + src.subrange(start, p0) + text@);
            self.faithful = Ghost(was && text@ == src.subrange(p0, p1));
            if self.faithful@ {
                assert(src.subrange(0, start) + src.subrange(start, p0) + src.subrange(p0, p1)
                    =~= src.subrange(0, p1));
            }
        }
        // create a `Token` wrapper and return it
        Some(Ok(Token::new(kind, text)))
    }

    /// Pull until the source is used up, collecting every outcome in order.
    pub fn tokens<K>(&mut self) -> (r: Vec<MatchResult<Token<K>>>)
        where
            M: Matcher<K>,
        requires
            old(self).wf(),
        ensures
            final(self).wf(),
            final(self).position() == final(self).source().len(),
            r@.len() <= old(self).source().len() - old(self).position(),
            r@.len() == 0 <==> old(self).next_start() == old(self).source().len(),
            final(self).faithful() ==> final(self).emitted() == final(self).source(),
            exists|st: Seq<Lexer<M>>|
                {
                    &&& st.len() == r@.len() + 2
                    &&& st[0] == *old(self)
                    &&& st.last() == *final(self)
                    &&& forall|i: int| 0 <= i < st.len() ==> #[trigger] st[i].wf()
                    &&& forall|i: int|
                        0 <= i < r@.len() ==> #[trigger] st[i].pulled(&st[i + 1], Some(r@[i]))
                    &&& st[r@.len() as int].pulled(&st[r@.len() + 1int], None)
                },
    {
        let mut out: Vec<MatchResult<Token<K>>> = Vec::new();
        let ghost mut st: Seq<Lexer<M>> = seq![*self];
        proof {
            self.lemma_wf();
        }
        loop
            invariant_except_break
                out@.len() == 0 ==> *self == *old(self),
                st.len() == out@.len() + 1,
                st.last() == *self,
            invariant
                self.wf(),
                self.source() == old(self).source(),
                old(self).position() <= self.position() <= self.source().len(),
                out@.len() <= self.position() - old(self).position(),
                out@.len() > 0 ==> old(self).next_start() != old(self).source().len(),
                st.len() >= out@.len() + 1,
                st[0] == *old(self),
                forall|i: int| 0 <= i < st.len() ==> #[trigger] st[i].wf(),
                forall|i: int| 0 <= i < out@.len() ==> #[trigger] st[i].pulled(&st[i + 1], Some(out@[i])),
            ensures
                self.wf(),
                self.position() == self.source().len(),
                out@.len() <= self.source().len() - old(self).position(),
                out@.len() == 0 <==> old(self).next_start() == old(self).source().len(),
                st.len() == out@.len() + 2,
                st.last() == *self,
                st[out@.len() as int].pulled(&st[out@.len() + 1int], None),
            decreases self.source().len() - self.position(),
        {
            let ghost before = *self;
            proof {
                before.lemma_wf();
            }
            match self.next() {
                None => {
                    proof {
                        st = st.push(*self);
                        self.lemma_wf();
                    }
                    break;
                },
                Some(t) => {
                    out.push(t);
                    proof {
                        st = st.push(*self);
                    }
                },
            }
            proof {
                self.lemma_wf();
            }
        }
        proof {
            self.lemma_wf();
        }
        out
    }
}

/// Along successful pulls of a matcher that only accepts, a faithful lexer
/// stays faithful, with the same source and matcher.
proof fn lemma_stays_faithful<M, K>(st: Seq<Lexer<M>>, outs: Seq<MatchResult<Token<K>>>, k: int)
    where
        M: Matcher<K>,
    requires
        0 <= k <= outs.len(),
        st.len() == outs.len() + 2,
        forall|i: int| 0 <= i < st.len() ==> #[trigger] st[i].wf(),
        st[0].faithful(),
        accepts_only::<K, M>(st[0].matcher()),
        forall|i: int| 0 <= i < outs.len() ==> #[trigger] st[i].pulled(&st[i + 1], Some(outs[i])),
        forall|i: int| 0 <= i < outs.len() ==> #[trigger] outs[i] is Ok,
    ensures
        st[k].faithful(),
        st[k].source() == st[0].source(),
        st[k].matcher() == st[0].matcher(),
    decreases k,
{
    if k > 0 {
        let j = k - 1;
        lemma_stays_faithful(st, outs, j);
        let lx = st[j];
        lx.lemma_wf();
        assert(st[j].pulled(&st[j + 1], Some(outs[j])));
        assert(outs[j] is Ok);
        let src = lx.source();
        let p0 = lx.next_start();
        let ans = lx.matcher().answer(src[p0], src, p0 + 1);
        assert(ans.2 == src.subrange(p0, ans.1));
    }
}

/// Reconstruction: run from a fresh lexer whose matcher only accepts, a
/// sequence of pulls that all give tokens and then end has emitted exactly
/// the source: the whitespace skipped before each token, the token texts and
/// the whitespace skipped at the end, concatenated in order.
pub proof fn lemma_reconstruction<M, K>(st: Seq<Lexer<M>>, outs: Seq<MatchResult<Token<K>>>)
    where
        M: Matcher<K>,
    requires
        st.len() == outs.len() + 2,
        forall|i: int| 0 <= i < st.len() ==> #[trigger] st[i].wf(),
        st[0].position() == 0,
        st[0].emitted() == Seq::<char>::empty(),
        st[0].faithful(),
        accepts_only::<K, M>(st[0].matcher()),
        forall|i: int| 0 <= i < outs.len() ==> #[trigger] st[i].pulled(&st[i + 1], Some(outs[i])),
        forall|i: int| 0 <= i < outs.len() ==> #[trigger] outs[i] is Ok,
        st[outs.len() as int].pulled(&st[outs.len() + 1int], None),
    ensures
        st.last().emitted() == st[0].source(),
{
    let n = outs.len() as int;
    lemma_stays_faithful(st, outs, n);
    let last = st[n + 1];
    last.lemma_wf();
    st[n].lemma_wf();
    assert(last.source().subrange(0, last.source().len() as int) =~= last.source());
}

/// Determinism: two lexers with the same source, position, whitespace
/// setting and matcher give the same outcome on a pull (the same kind and
/// text, or the same failure, or both end) and stand at the same place after.
pub proof fn lemma_pull_deterministic<M, K>(
    a: &Lexer<M>,
    a_after: &Lexer<M>,
    ra: Option<MatchResult<Token<K>>>,
    b: &Lexer<M>,
    b_after: &Lexer<M>,
    rb: Option<MatchResult<Token<K>>>,
)
    where
        M: Matcher<K>,
    requires
        a.wf(),
        b.wf(),
        a.source() == b.source(),
        a.position() == b.position(),
        a.skips_whitespace() == b.skips_whitespace(),
        a.matcher() == b.matcher(),
        a.pulled(a_after, ra),
        b.pulled(b_after, rb),
    ensures
        a_after.source() == b_after.source(),
        a_after.position() == b_after.position(),
        a_after.skips_whitespace() == b_after.skips_whitespace(),
        a_after.matcher() == b_after.matcher(),
        ra is None <==> rb is None,
        ra matches Some(Err(e)) ==> rb == Some(Err::<Token<K>, MatchError>(e)),
        ra matches Some(Ok(ta)) ==> (rb matches Some(Ok(tb)) && ta.spec_kind() == tb.spec_kind()
            && ta.spec_text() == tb.spec_text()),
{
}

/// Progress: a pull that yields an outcome consumes at least one character,
/// and a pull that ends leaves the cursor at the end of the source.
pub proof fn lemma_pull_progress<M, K>(
    lexer: &Lexer<M>,
    after: &Lexer<M>,
    r: Option<MatchResult<Token<K>>>,
)
    where
        M: Matcher<K>,
    requires
        lexer.wf(),
        lexer.pulled(after, r),
    ensures
        r is Some ==> lexer.position() < after.position(),
        r is None ==> after.position() == lexer.source().len(),
{
    lexer.lemma_wf();
}

/// The end is final: once the cursor stands at the end of the source, every
/// further pull ends again and stays there.
pub proof fn lemma_end_is_final<M, K>(
    lexer: &Lexer<M>,
    after: &Lexer<M>,
    r: Option<MatchResult<Token<K>>>,
)
    where
        M: Matcher<K>,
    requires
        lexer.wf(),
        lexer.position() == lexer.source().len(),
        lexer.pulled(after, r),
    ensures
        r is None,
        after.position() == lexer.source().len(),
{
    lexer.lemma_wf();
}

/// An empty source ends on the first pull, with no token.
pub proof fn lemma_empty_source<M, K>(
    lexer: &Lexer<M>,
    after: &Lexer<M>,
    r: Option<MatchResult<Token<K>>>,
)
    where
        M: Matcher<K>,
    requires
        lexer.wf(),
        lexer.source().len() == 0,
        lexer.pulled(after, r),
    ensures
        r is None,
{
    lexer.lemma_wf();
}

/// A source of one character that is not skipped gives what the matcher
/// answers for it: a token of the matcher's kind whose text is that
/// character, or the matcher's failure; the next pull ends.
pub proof fn lemma_single_char<M, K>(
    lexer: &Lexer<M>,
    mid: &Lexer<M>,
    r1: Option<MatchResult<Token<K>>>,
    after: &Lexer<M>,
    r2: Option<MatchResult<Token<K>>>,
)
    where
        M: Matcher<K>,
    requires
        lexer.wf(),
        lexer.position() == 0,
        lexer.source().len() == 1,
        !(lexer.skips_whitespace() && is_ascii_ws(lexer.source()[0])),
        lexer.pulled(mid, r1),
        mid.wf(),
        mid.pulled(after, r2),
    ensures
        lexer.matcher().answer(lexer.source()[0], lexer.source(), 1).0 matches Ok(k) ==> (
        r1 matches Some(Ok(tok)) && tok.spec_kind() == k && tok.spec_text() == lexer.source()),
        lexer.matcher().answer(lexer.source()[0], lexer.source(), 1).0 matches Err(e) ==> r1
            == Some(Err::<Token<K>, MatchError>(e)),
        r2 is None,
{
    lexer.lemma_wf();
    mid.lemma_wf();
    assert(lexer.next_start() == 0);
    if let Some(Ok(tok)) = r1 {
        assert(tok.spec_text() =~= lexer.source());
    }
}

} // verus!
