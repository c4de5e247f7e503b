//! Splitting a command fragment into whitespace-delimited words.
use vstd::prelude::*;

verus! {

/// The characters that `char::is_whitespace` accepts: Unicode `White_Space`.
pub open spec fn is_space(c: char) -> bool {
    let u = c as u32;
    (0x9 <= u <= 0xd) || u == 0x20 || u == 0x85 || u == 0xa0 || u == 0x1680 || (0x2000 <= u
        <= 0x200a) || u == 0x2028 || u == 0x2029 || u == 0x202f || u == 0x205f || u == 0x3000
}

/// Tests whether `c` is a whitespace character.
pub fn space(c: char) -> (r: bool)
    ensures
        r == is_space(c),
{
    let u = c as u32;
    (0x9 <= u && u <= 0xd) || u == 0x20 || u == 0x85 || u == 0xa0 || u == 0x1680 || (0x2000 <= u
        && u <= 0x200a) || u == 0x2028 || u == 0x2029 || u == 0x202f || u == 0x205f || u == 0x3000
}

/// The words of `s` after the word `cur` that is being read: maximal runs of
/// non-whitespace characters, in order.
pub open spec fn words_after(s: Seq<char>, cur: Seq<char>) -> Seq<Seq<char>>
    decreases s.len(),
{
    let done: Seq<Seq<char>> = if cur.len() == 0 {
        seq![]
    } else {
        seq![cur]
    };
    if s.len() == 0 {
        done
    } else if is_space(s[0]) {
        done + words_after(s.drop_first(), seq![])
    } else {
        words_after(s.drop_first(), cur.push(s[0]))
    }
}

/// The whitespace-delimited words of `s`, in order.
pub open spec fn words(s: Seq<char>) -> Seq<Seq<char>> {
    words_after(s, seq![])
}

/// A word: non-empty and free of whitespace.
pub open spec fn is_word(w: Seq<char>) -> bool {
    w.len() > 0 && forall|k: int| 0 <= k < w.len() ==> !is_space(#[trigger] w[k])
}

/// The words `ws` written one after another, with one space between two.
pub open spec fn join_words(ws: Seq<Seq<char>>) -> Seq<char>
    decreases ws.len(),
{
    if ws.len() == 0 {
        seq![]
    } else if ws.len() == 1 {
        ws[0]
    } else {
        ws[0] + seq![' '] + join_words(ws.drop_first())
    }
}

/// Reading on through characters that are not whitespace extends the word
/// being read.
proof fn lemma_read_word(t: Seq<char>, rest: Seq<char>, cur: Seq<char>)
    requires
        forall|k: int| 0 <= k < t.len() ==> !is_space(#[trigger] t[k]),
    ensures
        words_after(t + rest, cur) == words_after(rest, cur + t),
    decreases t.len(),
{
    if t.len() == 0 {
        assert(t + rest =~= rest);
        assert(cur + t =~= cur);
    } else {
        assert((t + rest)[0] == t[0]);
        assert((t + rest).drop_first() =~= t.drop_first() + rest);
        assert(cur.push(t[0]) + t.drop_first() =~= cur + t);
        lemma_read_word(t.drop_first(), rest, cur.push(t[0]));
    }
}

/// For every fragment made of words and single spaces, the words read from
/// it are exactly those words, in their order.
pub proof fn lemma_words_of_joined(ws: Seq<Seq<char>>)
    requires
        forall|i: int| 0 <= i < ws.len() ==> is_word(#[trigger] ws[i]),
    ensures
        words(join_words(ws)) == ws,
    decreases ws.len(),
{
    if ws.len() == 0 {
        assert(words(join_words(ws)) =~= ws);
    } else if ws.len() == 1 {
        assert(is_word(ws[0]));
        lemma_read_word(ws[0], seq![], seq![]);
        assert(ws[0] + Seq::<char>::empty() =~= ws[0]);
        assert(Seq::<char>::empty() + ws[0] =~= ws[0]);
        assert(words(join_words(ws)) =~= ws);
    } else {
        let w = ws[0];
        let tail = ws.drop_first();
        assert(is_word(w));
        assert forall|i: int| 0 <= i < tail.len() implies is_word(#[trigger] tail[i]) by {
            assert(tail[i] == ws[i + 1]);
        }
        lemma_words_of_joined(tail);
        let rest = seq![' '] + join_words(tail);
        assert(join_words(ws) =~= w + rest);
        lemma_read_word(w, rest, seq![]);
        assert(Seq::<char>::empty() + w =~= w);
        assert(rest[0] == ' ');
        assert(rest.drop_first() =~= join_words(tail));
        assert(seq![w] + tail =~= ws);
    }
}

/// The arguments of a command: the words of a line that are still to come,
/// handed out one at a time.
#[derive(Debug)]
pub struct LineIter {
    line: String,
    pos: usize,
}

impl View for LineIter {
    type V = Seq<Seq<char>>;

    /// The words not handed out yet.
    closed spec fn view(&self) -> Seq<Seq<char>> {
        words(self.line@.skip(self.pos as int))
    }
}

impl LineIter {
    #[verifier::type_invariant]
    closed spec fn wf(&self) -> bool {
        self.pos <= self.line@.len()
    }

    /// Starts at the first word of `line`.
    pub fn from(line: &str) -> (r: LineIter)
        ensures
            r@ == words(line@),
    {
        let r = LineIter { line: String::from_str(line), pos: 0 };
        assert(r.line@.skip(0) =~= line@);
        r
    }

    /// A copy that hands out the same words.
    pub fn duplicate(&self) -> (r: LineIter)
        ensures
            r@ == self@,
    {
        proof {
            use_type_invariant(self);
        }
        LineIter { line: self.line.clone(), pos: self.pos }
    }

    /// Hands out the next word, if any.
    pub fn next(&mut self) -> (r: Option<String>)
        ensures
            old(self)@.len() == 0 ==> r.is_none() && final(self)@ == old(self)@,
            old(self)@.len() > 0 ==> r.is_some() && r.unwrap()@ == old(self)@[0] && final(self)@
                == old(self)@.drop_first(),
    {
        proof {
            use_type_invariant(&*self);
        }
        let len = self.line.as_str().unicode_len();
        let ghost s = self.line@;
        let mut i = self.pos;
        while i < len && space(self.line.as_str().get_char(i))
            invariant
                self.line@ == s,
                len == s.len(),
                old(self).pos <= i <= len,
                self.pos == old(self).pos,
                words(s.skip(i as int)) == words(s.skip(old(self).pos as int)),
            decreases len - i,
        {
            proof {
                assert(s.skip(i as int).drop_first() =~= s.skip(i + 1));
                assert(seq![] + words(s.skip(i + 1)) =~= words(s.skip(i + 1)));
            }
            i = i + 1;
        }
        if i == len {
            proof {
                assert(s.skip(i as int) =~= Seq::<char>::empty());
            }
            self.pos = i;
            return None;
        }
        let start = i;
        assert(s.subrange(start as int, start as int) =~= Seq::<char>::empty());
        while i < len && !space(self.line.as_str().get_char(i))
            invariant
                self.line@ == s,
                len == s.len(),
                start < len,
                start <= i <= len,
                self.pos == old(self).pos,
                !is_space(s[start as int]),
                words(s.skip(old(self).pos as int)) == words_after(
                    s.skip(i as int),
                    s.subrange(start as int, i as int),
                ),
            decreases len - i,
        {
            proof {
                assert(s.skip(i as int).drop_first() =~= s.skip(i + 1));
                assert(s.subrange(start as int, i as int).push(s[i as int]) =~= s.subrange(
                    start as int,
                    i + 1,
                ));
            }
            i = i + 1;
        }
        let word = String::from_str(self.line.as_str().substring_char(start, i));
        proof {
            let cur = s.subrange(start as int, i as int);
            assert(cur.len() > 0);
            if i < len {
                assert(s.skip(i as int).drop_first() =~= s.skip(i + 1));
                assert(words(s.skip(i as int)) == words(s.skip(i + 1)));
                assert(seq![] + words(s.skip(i + 1)) =~= words(s.skip(i + 1)));
            } else {
                assert(s.skip(i as int) =~= Seq::<char>::empty());
            }
            assert(words(s.skip(old(self).pos as int)) =~= seq![cur] + words(s.skip(i as int)));
        }
        self.pos = i;
        Some(word)
    }
}

} // verus!
