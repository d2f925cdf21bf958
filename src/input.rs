use vstd::prelude::*;

verus! {

/// The characters that `char::is_ascii_whitespace` accepts: space, tab, line
/// feed, form feed and carriage return.
pub open spec fn is_ascii_ws(c: char) -> bool {
    c == ' ' || c == '\t' || c == '\n' || c == '\x0C' || c == '\r'
}

/// The first index at or after `i` that does not hold ASCII whitespace (or the
/// end of `s`).
pub open spec fn ws_end(s: Seq<char>, i: int) -> int
    decreases s.len() - i,
{
    if 0 <= i < s.len() && is_ascii_ws(s[i]) {
        ws_end(s, i + 1)
    } else {
        i
    }
}

/// A run of whitespace that stops before a non-whitespace character (or the
/// end) is exactly the run that `ws_end` measures.
pub proof fn lemma_ws_end(s: Seq<char>, i: int, j: int)
    requires
        0 <= i <= j <= s.len(),
        forall|k: int| i <= k < j ==> is_ascii_ws(#[trigger] s[k]),
        j == s.len() || !is_ascii_ws(s[j]),
    ensures
        ws_end(s, i) == j,
    decreases j - i,
{
    if i < j {
        lemma_ws_end(s, i + 1, j);
    }
}

/// `ws_end` never moves backwards and never passes the end.
pub proof fn lemma_ws_end_bounds(s: Seq<char>, i: int)
    requires
        0 <= i <= s.len(),
    ensures
        i <= ws_end(s, i) <= s.len(),
    decreases s.len() - i,
{
    if i < s.len() && is_ascii_ws(s[i]) {
        lemma_ws_end_bounds(s, i + 1);
    }
}

/// Relies on `String::push`: the character is appended at the end.
#[verifier::external_body]
pub(crate) fn push_char(s: &mut String, c: char)
    ensures
        final(s)@ == old(s)@.push(c),
{
    s.push(c)
}

/// A cursor over a source text that copies every accepted character into a
/// buffer, while skipped characters are passed over without being kept.
pub struct BufferedInput {
    buffer: String,
    chars: Vec<char>,
    pos: usize,
}

impl BufferedInput {
    /// The characters of the source text.
    pub closed spec fn source(&self) -> Seq<char> {
        self.chars@
    }

    /// The index of the next character that has not been consumed.
    pub closed spec fn position(&self) -> int {
        self.pos as int
    }

    /// The characters accepted since the buffer was last taken.
    pub closed spec fn buffered(&self) -> Seq<char> {
        self.buffer@
    }

    /// The cursor stands within the source or at its end.
    pub open spec fn wf(&self) -> bool {
        0 <= self.position() <= self.source().len()
    }

    /// The next character, if any is left.
    pub open spec fn next_char(&self) -> Option<char> {
        if self.position() < self.source().len() {
            Some(self.source()[self.position()])
        } else {
            None
        }
    }

    /// Create a new buffered lexer input
    pub fn new(input: &str) -> (r: BufferedInput)
        ensures
            r.wf(),
            r.source() == input@,
            r.position() == 0,
            r.buffered() == Seq::<char>::empty(),
    {
        let mut chars: Vec<char> = Vec::new();
        let mut it = input.chars();
        proof {
            broadcast use vstd::string::axiom_spec_iter;
        }
        for c in iter: it
            invariant
                chars@ == iter.history(),
        {
            chars.push(c);
        }
        BufferedInput { buffer: String::new(), chars, pos: 0 }
    }
    /// Copy out the buffer and clear it
    pub fn take_buffer(&mut self) -> (r: String)
        requires
            old(self).wf(),
        ensures
            final(self).wf(),
            r@ == old(self).buffered(),
            final(self).buffered() == Seq::<char>::empty(),
            final(self).source() == old(self).source(),
            final(self).position() == old(self).position(),
    {
        let buffer = self.buffer.clone();
        self.buffer = String::new();
        buffer
    }

    /// Peek at the next character
    pub fn peek(&mut self) -> (r: Option<char>)
        requires
            old(self).wf(),
        ensures
            *final(self) == *old(self),
            r == old(self).next_char(),
    {
        if self.pos < self.chars.len() {
            Some(self.chars[self.pos])
        } else {
            None
        }
    }

    /// Get the next character but don't push it to the buffer
    pub fn skip(&mut self) -> (r: Option<char>)
        requires
            old(self).wf(),
        ensures
            final(self).wf(),
            r == old(self).next_char(),
            final(self).source() == old(self).source(),
            final(self).buffered() == old(self).buffered(),
            final(self).position() == old(self).position() + if r is Some { 1int } else { 0int },
    {
        if self.pos < self.chars.len() {
            let c = self.chars[self.pos];
            self.pos = self.pos + 1;
            Some(c)
        } else {
            None
        }
    }

    /// Skip if the given predicate is true
    pub fn skip_if<P: Fn(&char) -> bool>(&mut self, predicate: P) -> (r: Option<char>)
        requires
            old(self).wf(),
            forall|c: char| predicate.requires((&c,)),
        ensures
            final(self).wf(),
            final(self).source() == old(self).source(),
            final(self).buffered() == old(self).buffered(),
            match r {
                Some(c) => {
                    &&& old(self).next_char() == Some(c)
                    &&& predicate.ensures((&c,), true)
                    &&& final(self).position() == old(self).position() + 1
                },
                None => {
                    &&& final(self).position() == old(self).position()
                    &&& (old(self).next_char() matches Some(c) ==> predicate.ensures((&c,), false))
                },
            },
    {
        if let Some(c) = self.peek() {
            if predicate(&c) {
                self.skip();
                return Some(c);
            }
        }
        None
    }

    /// Skip while the given predicate is true
    pub fn skip_while<P: Fn(&char) -> bool>(&mut self, predicate: P)
        requires
            old(self).wf(),
            forall|c: char| predicate.requires((&c,)),
        ensures
            final(self).wf(),
            final(self).source() == old(self).source(),
            final(self).buffered() == old(self).buffered(),
            old(self).position() <= final(self).position(),
            forall|i: int|
                old(self).position() <= i < final(self).position() ==> predicate.ensures(
                    (&final(self).source()[i],),
                    true,
                ),
            final(self).next_char() matches Some(c) ==> predicate.ensures((&c,), false),
    {
        let ghost start = self.pos as int;
        loop
            invariant
                self.wf(),
                self.source() == old(self).source(),
                self.buffered() == old(self).buffered(),
                start == old(self).position(),
                start <= self.position(),
                forall|c: char| predicate.requires((&c,)),
                forall|i: int|
                    start <= i < self.position() ==> predicate.ensures((&self.source()[i],), true),
            ensures
                self.wf(),
                self.source() == old(self).source(),
                self.buffered() == old(self).buffered(),
                start <= self.position(),
                forall|i: int|
                    start <= i < self.position() ==> predicate.ensures((&self.source()[i],), true),
                self.next_char() matches Some(c) ==> predicate.ensures((&c,), false),
            decreases self.source().len() - self.position(),
        {
            if self.pos >= self.chars.len() {
                break;
            }
            let c = self.chars[self.pos];
            if !predicate(&c) {
                break;
            }
            self.pos = self.pos + 1;
        }
    }

    /// Retrieve the next character and increment the input position
    pub fn accept(&mut self) -> (r: Option<char>)
        requires
            old(self).wf(),
        ensures
            final(self).wf(),
            r == old(self).next_char(),
            final(self).source() == old(self).source(),
            match r {
                Some(c) => {
                    &&& final(self).position() == old(self).position() + 1
                    &&& final(self).buffered() == old(self).buffered().push(c)
                },
                None => *final(self) == *old(self),
            },
    {
        if self.pos < self.chars.len() {
            let c = self.chars[self.pos];
            self.pos = self.pos + 1;
            push_char(&mut self.buffer, c);
            Some(c)
        } else {
            None
        }
    }

    /// Accept the next character if the given predicate holds of it
    pub fn accept_if<P: Fn(&char) -> bool>(&mut self, predicate: P) -> (r: Option<char>)
        requires
            old(self).wf(),
            forall|c: char| predicate.requires((&c,)),
        ensures
            final(self).wf(),
            final(self).source() == old(self).source(),
            match r {
                Some(c) => {
                    &&& old(self).next_char() == Some(c)
                    &&& predicate.ensures((&c,), true)
                    &&& final(self).position() == old(self).position() + 1
                    &&& final(self).buffered() == old(self).buffered().push(c)
                },
                None => {
                    &&& *final(self) == *old(self)
                    &&& (old(self).next_char() matches Some(c) ==> predicate.ensures((&c,), false))
                },
            },
    {
        if let Some(c) = self.peek() {
            if predicate(&c) {
                self.accept();
                return Some(c);
            }
        }
        None
    }

    /// Accept characters while the next one fulfils `predicate`
    pub fn accept_while<P: Fn(&char) -> bool>(&mut self, predicate: P)
        requires
            old(self).wf(),
            forall|c: char| predicate.requires((&c,)),
        ensures
            final(self).wf(),
            final(self).source() == old(self).source(),
            old(self).position() <= final(self).position(),
            final(self).buffered() == old(self).buffered() + final(self).source().subrange(
                old(self).position(),
                final(self).position(),
            ),
            forall|i: int|
                old(self).position() <= i < final(self).position() ==> predicate.ensures(
                    (&final(self).source()[i],),
                    true,
                ),
            final(self).next_char() matches Some(c) ==> predicate.ensures((&c,), false),
    {
        let ghost start = self.pos as int;
        loop
            invariant
                self.wf(),
                self.source() == old(self).source(),
                start == old(self).position(),
                start <= self.position(),
                self.buffered() == old(self).buffered() + self.source().subrange(
                    start,
                    self.position(),
                ),
                forall|c: char| predicate.requires((&c,)),
                forall|i: int|
                    start <= i < self.position() ==> predicate.ensures((&self.source()[i],), true),
            ensures
                self.wf(),
                self.source() == old(self).source(),
                start <= self.position(),
                self.buffered() == old(self).buffered() + self.source().subrange(
                    start,
                    self.position(),
                ),
                forall|i: int|
                    start <= i < self.position() ==> predicate.ensures((&self.source()[i],), true),
                self.next_char() matches Some(c) ==> predicate.ensures((&c,), false),
            decreases self.source().len() - self.position(),
        {
            if self.pos >= self.chars.len() {
                break;
            }
            let c = self.chars[self.pos];
            if !predicate(&c) {
                break;
            }
            self.accept();
            assert(self.source().subrange(start, self.position()) =~= self.source().subrange(
                start,
                self.position() - 1,
            ).push(c));
        }
    }

    /// Accept the next character and return `ok` if `predicate` holds of it,
    /// or else consume nothing and return `default`
    pub fn accept_or<P: Fn(&char) -> bool, T>(&mut self, predicate: P, ok: T, default: T) -> (r: T)
        requires
            old(self).wf(),
            forall|c: char| predicate.requires((&c,)),
        ensures
            final(self).wf(),
            final(self).source() == old(self).source(),
            ({
                ||| {
                    &&& r == ok
                    &&& old(self).next_char() matches Some(c)
                    &&& predicate.ensures((&c,), true)
                    &&& final(self).position() == old(self).position() + 1
                    &&& final(self).buffered() == old(self).buffered().push(c)
                }
                ||| {
                    &&& r == default
                    &&& *final(self) == *old(self)
                    &&& (old(self).next_char() matches Some(c) ==> predicate.ensures((&c,), false))
                }
            }),
    {
        if let Some(_) = self.accept_if(predicate) {
            ok
        } else {
            default
        }
    }

    /// Skip whitespace, preserving the original buffer before any whitespace was encountered
    pub fn skip_whitespace(&mut self)
        requires
            old(self).wf(),
        ensures
            final(self).wf(),
            final(self).source() == old(self).source(),
            final(self).buffered() == old(self).buffered(),
            final(self).position() == ws_end(old(self).source(), old(self).position()),
    {
        self.skip_while(|c: &char| -> (b: bool)
            ensures
                b == is_ascii_ws(*c),
            { *c == ' ' || *c == '\t' || *c == '\n' || *c == '\x0C' || *c == '\r' });
        proof {
            lemma_ws_end(self.source(), old(self).position(), self.position());
        }
    }
}

} // verus!
