use vstd::prelude::*;

use crate::text::{
    chars_of, copy_chars, join_with_space, lemma_words_of_all_push, lemma_words_of_all_suffix,
    lemma_words_split, no_space, runs, sentences_of, split_pieces, split_sentences, string_of,
    views, words, words_of_all,
};

verus! {

/// What the planner is waiting to be told.
#[derive(Debug, Clone, Copy, PartialEq, Eq, Structural)]
pub enum Stage {
    /// The token count of the next sentence on its own.
    Sentence,
    /// The token count of the current chunk joined with the next sentence.
    Join,
    /// The token count of the word chunk joined with the next word of an oversized sentence.
    Word,
    /// Nothing: every chunk has been emitted.
    Done,
}

/// The planner's state, as values.
pub ghost struct PlanState {
    /// Index of the sentence being taken in.
    pub next: int,
    /// The open chunk of whole sentences.
    pub current: Seq<char>,
    /// The chunks emitted so far.
    pub chunks: Seq<Seq<char>>,
    /// What the planner waits for.
    pub stage: Stage,
    /// Words of the oversized sentence being packed word by word.
    pub words: Seq<Seq<char>>,
    /// Index of the word being tried.
    pub word: int,
    /// The open chunk of words.
    pub word_chunk: Seq<char>,
}

/// `a` and `b` joined by a space, or `b` alone when `a` is empty.
pub open spec fn joined(a: Seq<char>, b: Seq<char>) -> Seq<char> {
    if a.len() == 0 {
        b
    } else {
        a.push(' ') + b
    }
}

/// `chunks` with `c` added when it is not empty.
pub open spec fn emit(chunks: Seq<Seq<char>>, c: Seq<char>) -> Seq<Seq<char>> {
    if c.len() > 0 {
        chunks.push(c)
    } else {
        chunks
    }
}

/// The state before any count is known.
pub open spec fn initial_state(sentences: Seq<Seq<char>>) -> PlanState {
    PlanState {
        next: 0,
        current: Seq::empty(),
        chunks: Seq::empty(),
        stage: if sentences.len() > 0 {
            Stage::Sentence
        } else {
            Stage::Done
        },
        words: Seq::empty(),
        word: 0,
        word_chunk: Seq::empty(),
    }
}

/// Moving past sentence `s.next`: on to the next sentence, or, after the last, emitting the
/// open chunk and finishing.
pub open spec fn finish_sentence(sentences: Seq<Seq<char>>, s: PlanState) -> PlanState {
    if s.next + 1 < sentences.len() {
        PlanState { next: s.next + 1, stage: Stage::Sentence, ..s }
    } else {
        PlanState {
            next: s.next + 1,
            stage: Stage::Done,
            current: Seq::empty(),
            chunks: emit(s.chunks, s.current),
            ..s
        }
    }
}

/// The text whose token count the planner asks for in state `s`.
pub open spec fn query_of(sentences: Seq<Seq<char>>, s: PlanState) -> Seq<char> {
    match s.stage {
        Stage::Sentence => sentences[s.next],
        Stage::Join => joined(s.current, sentences[s.next]),
        Stage::Word => joined(s.word_chunk, s.words[s.word]),
        Stage::Done => Seq::empty(),
    }
}

/// The next state, given whether the queried text fits the budget.
///
/// A sentence that fits joins the open chunk if the two fit together, and otherwise closes
/// it and opens a new one. A sentence that does not fit first closes the open chunk, so that
/// chunks keep the order of the text, and is then packed word by word: each word joins the
/// open word chunk if the two fit together, and otherwise closes it and opens a
/// new one; the word chunks are emitted as they close.
pub open spec fn step(sentences: Seq<Seq<char>>, s: PlanState, fits: bool) -> PlanState {
    match s.stage {
        Stage::Sentence => {
            let sen = sentences[s.next];
            if !fits {
                let flushed = PlanState {
                    chunks: emit(s.chunks, s.current),
                    current: Seq::empty(),
                    ..s
                };
                let ws = runs(sen, false);
                if ws.len() == 0 {
                    finish_sentence(sentences, flushed)
                } else {
                    PlanState {
                        stage: Stage::Word,
                        words: ws,
                        word: 0,
                        word_chunk: Seq::empty(),
                        ..flushed
                    }
                }
            } else if s.current.len() > 0 {
                PlanState { stage: Stage::Join, ..s }
            } else {
                finish_sentence(sentences, PlanState { current: sen, ..s })
            }
        },
        Stage::Join => {
            let sen = sentences[s.next];
            if !fits {
                finish_sentence(sentences, PlanState { chunks: s.chunks.push(s.current), current: sen, ..s })
            } else {
                finish_sentence(sentences, PlanState { current: joined(s.current, sen), ..s })
            }
        },
        Stage::Word => {
            let w = s.words[s.word];
            let chunks = if !fits {
                emit(s.chunks, s.word_chunk)
            } else {
                s.chunks
            };
            let wc = if !fits {
                w
            } else {
                joined(s.word_chunk, w)
            };
            if s.word + 1 < s.words.len() {
                PlanState { chunks: chunks, word_chunk: wc, word: s.word + 1, ..s }
            } else {
                finish_sentence(
                    sentences,
                    PlanState { chunks: emit(chunks, wc), word_chunk: Seq::empty(), word: s.word + 1, ..s },
                )
            }
        },
        Stage::Done => s,
    }
}

/// Splits a text into chunks whose token counts stay within a budget.
///
/// Token counts come from outside (phonemizing and tokenizing a candidate text): the planner
/// names the candidate it needs counted (`pending`) and takes the count back (`feed`) until
/// it is done. Sentences are packed greedily into chunks; a sentence that alone exceeds the
/// budget closes the open chunk and is packed word by word into chunks of its own.
pub struct ChunkPlanner {
    max_tokens: usize,
    sentences: Vec<Vec<char>>,
    next: usize,
    current: Vec<char>,
    chunks: Vec<Vec<char>>,
    stage: Stage,
    query: Vec<char>,
    words: Vec<Vec<char>>,
    word: usize,
    word_chunk: Vec<char>,
    text: Ghost<Seq<char>>,
    fitting: Ghost<Set<Seq<char>>>,
}

/// The words of the emitted chunks, the open chunk, the pending words and the sentences
/// still to come together make the words of the whole text.
pub open spec fn order_holds(
    text: Seq<char>,
    chunks: Seq<Seq<char>>,
    current: Seq<char>,
    pending: Seq<Seq<char>>,
    rest: Seq<Seq<char>>,
) -> bool {
    words(text) == words_of_all(chunks) + words(current) + pending + words_of_all(rest)
}

impl ChunkPlanner {
    /// The text being planned.
    pub closed spec fn text(&self) -> Seq<char> {
        self.text@
    }

    /// The sentences of the text.
    pub closed spec fn sentences(&self) -> Seq<Seq<char>> {
        views(self.sentences@)
    }

    /// The planner's state.
    pub closed spec fn state(&self) -> PlanState {
        PlanState {
            next: self.next as int,
            current: self.current@,
            chunks: views(self.chunks@),
            stage: self.stage,
            words: views(self.words@),
            word: self.word as int,
            word_chunk: self.word_chunk@,
        }
    }

    /// The token budget of a chunk.
    pub closed spec fn max_tokens(&self) -> nat {
        self.max_tokens as nat
    }

    /// Whether planning is over.
    pub closed spec fn is_done(&self) -> bool {
        self.stage is Done
    }

    /// The candidate text whose token count is needed next.
    pub closed spec fn query(&self) -> Seq<char> {
        self.query@
    }

    /// The chunks emitted so far.
    pub closed spec fn chunk_texts(&self) -> Seq<Seq<char>> {
        views(self.chunks@)
    }

    /// The texts that were reported to fit within the budget.
    pub closed spec fn fitting(&self) -> Set<Seq<char>> {
        self.fitting@
    }

    closed spec fn rest_index(&self) -> int {
        if self.stage is Word {
            self.next + 1
        } else {
            self.next as int
        }
    }

    closed spec fn pending_words(&self) -> Seq<Seq<char>> {
        if self.stage is Word {
            words(self.word_chunk@) + words_of_all(
                views(self.words@).subrange(self.word as int, self.words@.len() as int),
            )
        } else {
            Seq::empty()
        }
    }

    /// Every chunk fits or is a single word; the open chunks do too.
    closed spec fn budget_holds(&self) -> bool {
        &&& forall|k: int|
            0 <= k < self.chunks@.len() ==> {
                let c = (#[trigger] self.chunks@[k])@;
                c.len() > 0 && (no_space(c) || self.fitting@.contains(c))
            }
        &&& self.current@.len() > 0 ==> self.fitting@.contains(self.current@)
        &&& self.word_chunk@.len() > 0 ==> (no_space(self.word_chunk@) || self.fitting@.contains(
            self.word_chunk@,
        ))
    }

    closed spec fn sentences_ok(&self) -> bool {
        &&& self.next <= self.sentences@.len()
        &&& self.word <= self.words@.len()
        &&& words_of_all(views(self.sentences@)) == words(self.text@)
        &&& forall|k: int| 0 <= k < self.sentences@.len() ==> (#[trigger] self.sentences@[k])@.len() > 0
    }

    closed spec fn words_ok(&self) -> bool {
        &&& self.word < self.words@.len()
        &&& self.next < self.sentences@.len()
        &&& words_of_all(views(self.words@)) == words(self.sentences@[self.next as int]@)
        &&& forall|k: int|
            0 <= k < self.words@.len() ==> (#[trigger] self.words@[k])@.len() > 0 && no_space(
                self.words@[k]@,
            )
        &&& self.word_chunk@.len() == 0 ==> self.word == 0
        &&& self.query@ == if self.word_chunk@.len() == 0 {
            self.words@[self.word as int]@
        } else {
            self.word_chunk@.push(' ') + self.words@[self.word as int]@
        }
        &&& self.current@.len() == 0
    }

    /// The planner's invariant.
    pub closed spec fn wf(&self) -> bool {
        &&& self.sentences_ok()
        &&& self.budget_holds()
        &&& order_holds(
            self.text@,
            views(self.chunks@),
            self.current@,
            self.pending_words(),
            views(self.sentences@).subrange(self.rest_index(), self.sentences@.len() as int),
        )
        &&& match self.stage {
            Stage::Sentence => {
                &&& self.next < self.sentences@.len()
                &&& self.query@ == self.sentences@[self.next as int]@
                &&& self.word_chunk@.len() == 0
            },
            Stage::Join => {
                &&& self.next < self.sentences@.len()
                &&& self.current@.len() > 0
                &&& self.fitting@.contains(self.sentences@[self.next as int]@)
                &&& self.query@ == self.current@.push(' ') + self.sentences@[self.next as int]@
                &&& self.word_chunk@.len() == 0
            },
            Stage::Word => self.words_ok(),
            Stage::Done => {
                &&& self.next == self.sentences@.len()
                &&& self.current@.len() == 0
                &&& self.word_chunk@.len() == 0
            },
        }
    }

    /// The pending text is the one that the state asks for.
    proof fn lemma_query(&self)
        requires
            self.wf(),
        ensures
            !self.is_done() ==> self.query() == query_of(self.sentences(), self.state()),
            self.chunk_texts() == self.state().chunks,
            self.is_done() <==> self.state().stage == Stage::Done,
    {
    }

    /// State right after sentence `next` has been fully taken in.
    closed spec fn between(&self) -> bool {
        &&& self.sentences_ok()
        &&& self.next < self.sentences@.len()
        &&& self.budget_holds()
        &&& self.word_chunk@.len() == 0
        &&& order_holds(
            self.text@,
            views(self.chunks@),
            self.current@,
            Seq::empty(),
            views(self.sentences@).subrange(self.next + 1, self.sentences@.len() as int),
        )
    }

    /// Moves on to the sentence after `next`, or finishes.
    fn advance(&mut self)
        requires
            old(self).between(),
        ensures
            final(self).wf(),
            final(self).text@ == old(self).text@,
            final(self).max_tokens == old(self).max_tokens,
            final(self).fitting@ == old(self).fitting@,
            old(self).chunk_texts().is_prefix_of(final(self).chunk_texts()),
            final(self).sentences@ == old(self).sentences@,
            final(self).state() == finish_sentence(old(self).sentences(), old(self).state()),
    {
        let len = self.sentences.len();
        self.next = self.next + 1;
        if self.next < len {
            self.query = copy_chars(&self.sentences[self.next]);
            self.stage = Stage::Sentence;
        } else {
            let ghost old_chunks = self.chunks@;
            let ghost cur = self.current@;
            assert(views(self.sentences@).subrange(self.next as int, self.sentences@.len() as int)
                =~= Seq::<Seq<char>>::empty());
            if self.current.len() > 0 {
                proof {
                    lemma_words_of_all_push(views(self.chunks@), self.current@);
                }
                let c = copy_chars(&self.current);
                self.current = Vec::new();
                self.chunks.push(c);
                assert(views(self.chunks@) =~= views(old_chunks).push(cur));
            } else {
                assert(words(cur) =~= Seq::<Seq<char>>::empty());
            }
            assert(words(self.current@) =~= Seq::<Seq<char>>::empty());
            assert(self.current@ =~= Seq::<char>::empty());
            self.stage = Stage::Done;
            assert(words_of_all(Seq::<Seq<char>>::empty()) == Seq::<Seq<char>>::empty());
            assert(words_of_all(views(old_chunks)) + words(cur) + Seq::<Seq<char>>::empty()
                + Seq::<Seq<char>>::empty() =~= words_of_all(views(self.chunks@)) + words(
                self.current@,
            ) + Seq::<Seq<char>>::empty() + Seq::<Seq<char>>::empty());
        }
    }

    /// Takes in the count of sentence `next` on its own.
    fn feed_sentence(&mut self, fits: bool)
        requires
            old(self).wf(),
            old(self).stage is Sentence,
            fits ==> old(self).fitting@.contains(old(self).query@),
        ensures
            final(self).wf(),
            final(self).text@ == old(self).text@,
            final(self).max_tokens == old(self).max_tokens,
            final(self).fitting@ == old(self).fitting@,
            old(self).chunk_texts().is_prefix_of(final(self).chunk_texts()),
            final(self).sentences@ == old(self).sentences@,
            final(self).state() == step(old(self).sentences(), old(self).state(), fits),
    {
        let ghost sv = views(self.sentences@);
        let ghost n = self.next as int;
        let ghost len = self.sentences@.len() as int;
        let ghost wc = words_of_all(views(self.chunks@));
        proof {
            lemma_words_of_all_suffix(sv, n);
            assert(sv.subrange(n, len) =~= views(self.sentences@).subrange(n, len));
        }
        if !fits {
            if self.current.len() > 0 {
                let ghost old_chunks = self.chunks@;
                let ghost cur = self.current@;
                proof {
                    lemma_words_of_all_push(views(self.chunks@), self.current@);
                }
                let c = copy_chars(&self.current);
                self.current = Vec::new();
                self.chunks.push(c);
                assert(views(self.chunks@) =~= views(old_chunks).push(cur));
            }
            assert(self.current@ =~= Seq::<char>::empty());
            assert(words(self.current@) =~= Seq::<Seq<char>>::empty());
            let ghost wc = words_of_all(views(self.chunks@));
            assert(words(self.text@) == wc + words(self.current@) + Seq::<Seq<char>>::empty()
                + words_of_all(sv.subrange(n, len)));
            let ws = split_pieces(&self.sentences[self.next], false);
            if ws.len() == 0 {
                assert(views(ws@) =~= Seq::<Seq<char>>::empty());
                assert(words_of_all(views(ws@)) == Seq::<Seq<char>>::empty());
                assert(wc + words(self.current@) + Seq::<Seq<char>>::empty() + words_of_all(
                    sv.subrange(n, len),
                ) =~= wc + words(self.current@) + Seq::<Seq<char>>::empty() + words_of_all(
                    sv.subrange(n + 1, len),
                ));
                self.advance();
            } else {
                let first = copy_chars(&ws[0]);
                self.words = ws;
                self.word = 0;
                self.word_chunk = Vec::new();
                self.query = first;
                self.stage = Stage::Word;
                proof {
                    assert(views(self.words@).subrange(0, self.words@.len() as int) =~= views(
                        self.words@,
                    ));
                    assert(words(self.word_chunk@) =~= Seq::<Seq<char>>::empty());
                    assert(wc + words(self.current@) + Seq::<Seq<char>>::empty() + words_of_all(
                        sv.subrange(n, len),
                    ) =~= wc + words(self.current@) + self.pending_words() + words_of_all(
                        sv.subrange(n + 1, len),
                    ));
                }
            }
        } else if self.current.len() > 0 {
            self.query = join_with_space(&self.current, &self.sentences[self.next]);
            self.stage = Stage::Join;
        } else {
            self.current = copy_chars(&self.sentences[self.next]);
            assert(words(Seq::<char>::empty()) =~= Seq::<Seq<char>>::empty());
            assert(wc + Seq::<Seq<char>>::empty() + Seq::<Seq<char>>::empty() + words_of_all(
                sv.subrange(n, len),
            ) =~= wc + words(self.current@) + Seq::<Seq<char>>::empty() + words_of_all(
                sv.subrange(n + 1, len),
            ));
            self.advance();
        }
    }

    /// Takes in the count of the open chunk joined with sentence `next`.
    fn feed_join(&mut self, fits: bool)
        requires
            old(self).wf(),
            old(self).stage is Join,
            fits ==> old(self).fitting@.contains(old(self).query@),
        ensures
            final(self).wf(),
            final(self).text@ == old(self).text@,
            final(self).max_tokens == old(self).max_tokens,
            final(self).fitting@ == old(self).fitting@,
            old(self).chunk_texts().is_prefix_of(final(self).chunk_texts()),
            final(self).sentences@ == old(self).sentences@,
            final(self).state() == step(old(self).sentences(), old(self).state(), fits),
    {
        let ghost sv = views(self.sentences@);
        let ghost n = self.next as int;
        let ghost len = self.sentences@.len() as int;
        let ghost old_chunks = self.chunks@;
        let ghost wc = words_of_all(views(self.chunks@));
        let ghost cur = self.current@;
        let ghost sen = self.sentences@[n]@;
        proof {
            lemma_words_of_all_suffix(sv, n);
            lemma_words_split(cur, ' ', sen);
        }
        if !fits {
            let c = copy_chars(&self.current);
            proof {
                lemma_words_of_all_push(views(self.chunks@), c@);
            }
            self.chunks.push(c);
            assert(views(self.chunks@) =~= views(old_chunks).push(cur));
            self.current = copy_chars(&self.sentences[self.next]);
        } else {
            self.current = copy_chars(&self.query);
        }
        assert(wc + words(cur) + Seq::<Seq<char>>::empty() + words_of_all(sv.subrange(n, len))
            =~= words_of_all(views(self.chunks@)) + words(self.current@)
            + Seq::<Seq<char>>::empty() + words_of_all(sv.subrange(n + 1, len)));
        self.advance();
    }

    /// Takes in the count of the word chunk joined with word `word` of an oversized sentence.
    fn feed_word(&mut self, fits: bool)
        requires
            old(self).wf(),
            old(self).stage is Word,
            fits ==> old(self).fitting@.contains(old(self).query@),
        ensures
            final(self).wf(),
            final(self).text@ == old(self).text@,
            final(self).max_tokens == old(self).max_tokens,
            final(self).fitting@ == old(self).fitting@,
            old(self).chunk_texts().is_prefix_of(final(self).chunk_texts()),
            final(self).sentences@ == old(self).sentences@,
            final(self).state() == step(old(self).sentences(), old(self).state(), fits),
    {
        let ghost wv = views(self.words@);
        let ghost i = self.word as int;
        let ghost wlen = self.words@.len() as int;
        let ghost old_chunks = self.chunks@;
        let ghost wc = words_of_all(views(self.chunks@));
        let ghost chunk0 = self.word_chunk@;
        let ghost w = self.words@[i]@;
        let ghost rest = words_of_all(views(self.sentences@).subrange(
            self.next + 1,
            self.sentences@.len() as int,
        ));
        proof {
            lemma_words_of_all_suffix(wv, i);
            lemma_words_split(chunk0, ' ', w);
            assert(words(Seq::<char>::empty()) =~= Seq::<Seq<char>>::empty());
        }
        let next_chunk = copy_chars(&self.words[self.word]);
        if !fits {
            if self.word_chunk.len() > 0 {
                let c = copy_chars(&self.word_chunk);
                proof {
                    lemma_words_of_all_push(views(self.chunks@), c@);
                }
                self.chunks.push(c);
                assert(views(self.chunks@) =~= views(old_chunks).push(chunk0));
            }
            self.word_chunk = next_chunk;
        } else {
            self.word_chunk = copy_chars(&self.query);
            proof {
                if chunk0.len() == 0 {
                    assert(Seq::<Seq<char>>::empty() + words(w) =~= words(w));
                }
            }
        }
        assert(words_of_all(views(self.chunks@)) + words(self.word_chunk@) =~= wc + words(chunk0)
            + words(w));
        let count = self.words.len();
        self.word = self.word + 1;
        if self.word < count {
            self.query = join_with_space(&self.word_chunk, &self.words[self.word]);
            assert(wc + words(self.current@) + (words(chunk0) + words_of_all(wv.subrange(i, wlen)))
                + rest =~= words_of_all(views(self.chunks@)) + words(self.current@)
                + self.pending_words() + rest);
        } else {
            let ghost mid_chunks = self.chunks@;
            let ghost last = self.word_chunk@;
            assert(wv.subrange(i + 1, wlen) =~= Seq::<Seq<char>>::empty());
            assert(words_of_all(Seq::<Seq<char>>::empty()) == Seq::<Seq<char>>::empty());
            if self.word_chunk.len() > 0 {
                let c = copy_chars(&self.word_chunk);
                proof {
                    lemma_words_of_all_push(views(self.chunks@), c@);
                }
                self.chunks.push(c);
                assert(views(self.chunks@) =~= views(mid_chunks).push(last));
            }
            self.word_chunk = Vec::new();
            assert(wc + words(self.current@) + (words(chunk0) + words_of_all(wv.subrange(i, wlen)))
                + rest =~= words_of_all(views(self.chunks@)) + words(self.current@)
                + Seq::<Seq<char>>::empty() + rest);
            self.advance();
        }
    }

    /// A planner for `text` with chunks of at most `max_tokens` tokens.
    pub fn new(text: &str, max_tokens: usize) -> (r: ChunkPlanner)
        ensures
            r.wf(),
            r.text() == text@,
            r.max_tokens() == max_tokens,
            r.fitting() == Set::<Seq<char>>::empty(),
            r.chunk_texts() == Seq::<Seq<char>>::empty(),
            r.is_done() ==> words(text@) == Seq::<Seq<char>>::empty(),
            r.sentences() == sentences_of(text@),
            r.state() == initial_state(sentences_of(text@)),
            !r.is_done() ==> r.query() == query_of(r.sentences(), r.state()),
            r.is_done() <==> r.state().stage == Stage::Done,
    {
        let chars = chars_of(text);
        let sentences = split_sentences(&chars);
        let (stage, query) = if sentences.len() > 0 {
            (Stage::Sentence, copy_chars(&sentences[0]))
        } else {
            (Stage::Done, Vec::new())
        };
        let r = ChunkPlanner {
            max_tokens,
            sentences,
            next: 0,
            current: Vec::new(),
            chunks: Vec::new(),
            stage,
            query,
            words: Vec::new(),
            word: 0,
            word_chunk: Vec::new(),
            text: Ghost(text@),
            fitting: Ghost(Set::empty()),
        };
        proof {
            let sv = views(r.sentences@);
            assert(sv.subrange(0, sv.len() as int) =~= sv);
            assert(views(r.chunks@) =~= Seq::<Seq<char>>::empty());
            assert(words_of_all(Seq::<Seq<char>>::empty()) == Seq::<Seq<char>>::empty());
            assert(words(Seq::<char>::empty()) =~= Seq::<Seq<char>>::empty());
            assert(Seq::<Seq<char>>::empty() + Seq::<Seq<char>>::empty()
                + Seq::<Seq<char>>::empty() + words_of_all(sv) =~= words_of_all(sv));
            if sentences.len() == 0 {
                assert(sv =~= Seq::<Seq<char>>::empty());
            }
            assert(views(r.words@) =~= Seq::<Seq<char>>::empty());
            assert(r.state() == initial_state(sentences_of(text@)));
            r.lemma_query();
        }
        r
    }

    /// The text whose token count the planner needs next, or `None` once it is done.
    pub fn pending(&self) -> (r: Option<String>)
        requires
            self.wf(),
        ensures
            r is None <==> self.is_done(),
            r matches Some(q) ==> q@ == self.query(),
    {
        match self.stage {
            Stage::Done => None,
            _ => Some(string_of(&self.query)),
        }
    }

    /// Takes in the token count of the pending text and moves on: a count within the budget
    /// marks that text as fitting.
    pub fn feed(&mut self, token_count: usize)
        requires
            old(self).wf(),
            !old(self).is_done(),
        ensures
            final(self).wf(),
            final(self).text() == old(self).text(),
            final(self).max_tokens() == old(self).max_tokens(),
            final(self).fitting() == if token_count <= old(self).max_tokens() {
                old(self).fitting().insert(old(self).query())
            } else {
                old(self).fitting()
            },
            old(self).chunk_texts().is_prefix_of(final(self).chunk_texts()),
            final(self).sentences() == old(self).sentences(),
            final(self).state() == step(
                old(self).sentences(),
                old(self).state(),
                token_count <= old(self).max_tokens(),
            ),
            !final(self).is_done() ==> final(self).query() == query_of(
                final(self).sentences(),
                final(self).state(),
            ),
            final(self).chunk_texts() == final(self).state().chunks,
            final(self).is_done() <==> final(self).state().stage == Stage::Done,
    {
        let fits = token_count <= self.max_tokens;
        if fits {
            self.fitting = Ghost(self.fitting@.insert(self.query@));
        }
        match self.stage {
            Stage::Sentence => self.feed_sentence(fits),
            Stage::Join => self.feed_join(fits),
            Stage::Word => self.feed_word(fits),
            Stage::Done => {},
        }
        proof {
            self.lemma_query();
        }
    }

    /// The chunks emitted so far, in order.
    pub fn chunks(&self) -> (r: Vec<String>)
        ensures
            r@.len() == self.chunk_texts().len(),
            forall|k: int| 0 <= k < r@.len() ==> (#[trigger] r@[k])@ == self.chunk_texts()[k],
    {
        let mut out: Vec<String> = Vec::new();
        let mut k: usize = 0;
        while k < self.chunks.len()
            invariant
                k <= self.chunks@.len(),
                out@.len() == k,
                forall|j: int| 0 <= j < k ==> (#[trigger] out@[j])@ == self.chunks@[j]@,
            decreases self.chunks@.len() - k,
        {
            out.push(string_of(&self.chunks[k]));
            k = k + 1;
        }
        out
    }
}

/// Once planning is done, the words of the chunks, one chunk after another, are the words of
/// the text, in order, none lost or repeated (separators and the added full stops aside).
pub proof fn lemma_chunks_keep_words(p: &ChunkPlanner)
    requires
        p.wf(),
        p.is_done(),
    ensures
        words_of_all(p.chunk_texts()) == words(p.text()),
{
    let sv = views(p.sentences@);
    assert(sv.subrange(sv.len() as int, sv.len() as int) =~= Seq::<Seq<char>>::empty());
    assert(words_of_all(Seq::<Seq<char>>::empty()) == Seq::<Seq<char>>::empty());
    assert(words(p.current@) =~= Seq::<Seq<char>>::empty());
    assert(words_of_all(p.chunk_texts()) + Seq::<Seq<char>>::empty() + Seq::<Seq<char>>::empty()
        + Seq::<Seq<char>>::empty() =~= words_of_all(p.chunk_texts()));
}

/// Every chunk is non-empty, and is a single word or a text whose token count was reported
/// within the budget.
pub proof fn lemma_chunks_within_budget(p: &ChunkPlanner)
    requires
        p.wf(),
    ensures
        forall|k: int|
            0 <= k < p.chunk_texts().len() ==> {
                let c = #[trigger] p.chunk_texts()[k];
                c.len() > 0 && (no_space(c) || p.fitting().contains(c))
            },
{
    assert forall|k: int| 0 <= k < p.chunk_texts().len() implies {
        let c = #[trigger] p.chunk_texts()[k];
        c.len() > 0 && (no_space(c) || p.fitting().contains(c))
    } by {
        assert(p.chunk_texts()[k] == p.chunks@[k]@);
    }
}


/// How far planning has to go from state `s` over `n` sentences: sentences left, then the
/// stage, then words left; each part is a natural number.
pub open spec fn remaining(s: PlanState, n: int) -> (int, int, int) {
    (
        n - s.next,
        match s.stage {
            Stage::Sentence => 3,
            Stage::Word => 2,
            Stage::Join => 1,
            Stage::Done => 0,
        },
        s.words.len() - s.word,
    )
}

/// `a` comes strictly before `b` in lexicographic order.
pub open spec fn lex_less(a: (int, int, int), b: (int, int, int)) -> bool {
    a.0 < b.0 || (a.0 == b.0 && (a.1 < b.1 || (a.1 == b.1 && a.2 < b.2)))
}

/// Each count brings planning strictly closer to its end, without leaving the natural
/// numbers: whatever the counts, a planner is done after finitely many of them.
pub proof fn lemma_feed_progresses(p: &ChunkPlanner, fits: bool)
    requires
        p.wf(),
        !p.is_done(),
    ensures
        lex_less(
            remaining(step(p.sentences(), p.state(), fits), p.sentences().len() as int),
            remaining(p.state(), p.sentences().len() as int),
        ),
        ({
            let r = remaining(step(p.sentences(), p.state(), fits), p.sentences().len() as int);
            r.0 >= 0 && r.1 >= 0 && r.2 >= 0
        }),
{
    p.lemma_query();
}

} // verus!
