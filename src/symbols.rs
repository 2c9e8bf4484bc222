use vstd::prelude::*;

use crate::text::chars_of;

verus! {

/// The padding symbol, always at position zero.
pub const PAD: &'static str = "$";

/// Punctuation marks that the phonemizer keeps.
pub const PUNCTUATION: &'static str = ";:,.!?¡¿—…\"«»\"\" ";

/// Latin letters, upper case then lower case.
pub const LETTERS: &'static str = "ABCDEFGHIJKLMNOPQRSTUVWXYZabcdefghijklmnopqrstuvwxyz";

/// IPA letters followed by stress, length and tone marks.
pub const LETTERS_IPA: &'static str = "ɑɐɒæɓʙβɔɕçɗɖðʤəɘɚɛɜɝɞɟʄɡɠɢʛɦɧħɥʜɨɪʝɭɬɫɮʟɱɯɰŋɳɲɴøɵɸθœɶʘɹɺɾɻʀʁɽʂʃʈʧʉʊʋⱱʌɣɤʍχʎʏʑʐʒʔʡʕʢǀǁǂǃˈˌːˑʼʴʰʱʲʷˠˤ˞↓↑→↗↘'̩'ᵻ";

/// The canonical symbol sequence; a symbol's token id is its position in it.
pub open spec fn canonical_symbols() -> Seq<char> {
    PAD@ + PUNCTUATION@ + LETTERS@ + LETTERS_IPA@
}

/// Position of the last occurrence of `c` in `s`, if any.
pub open spec fn last_index_of(s: Seq<char>, c: char) -> Option<int>
    decreases s.len(),
{
    if s.len() == 0 {
        None
    } else if s.last() == c {
        Some(s.len() - 1)
    } else {
        last_index_of(s.drop_last(), c)
    }
}

/// Token ids of `text` under the symbol sequence `symbols`: each character maps to its
/// position, characters outside the table are dropped.
pub open spec fn tokens_of(symbols: Seq<char>, text: Seq<char>) -> Seq<i64>
    decreases text.len(),
{
    if text.len() == 0 {
        Seq::empty()
    } else {
        let rest = tokens_of(symbols, text.drop_last());
        match last_index_of(symbols, text.last()) {
            Some(i) => rest.push(i as i64),
            None => rest,
        }
    }
}

/// The token that stands for a moment of silence.
pub const SILENCE_TOKEN: i64 = 30;

/// `n` silence tokens.
pub open spec fn silence(n: nat) -> Seq<i64> {
    Seq::new(n, |i: int| SILENCE_TOKEN)
}

/// Ordered symbol table mapping each phoneme character to its token id.
pub struct SymbolTable {
    symbols: Vec<char>,
}

/// Appends the characters of `s` to `v`.
fn push_chars(v: &mut Vec<char>, s: &str)
    ensures
        final(v)@ == old(v)@ + s@,
{
    let n = s.unicode_len();
    let mut i: usize = 0;
    while i < n
        invariant
            n == s@.len(),
            i <= n,
            v@ == old(v)@ + s@.subrange(0, i as int),
        decreases n - i,
    {
        let c = s.get_char(i);
        v.push(c);
        i = i + 1;
        assert(v@ =~= old(v)@ + s@.subrange(0, i as int));
    }
    assert(s@.subrange(0, n as int) =~= s@);
}

/// Builds the symbol table from the canonical symbol sequence.
pub fn get_vocab() -> (r: SymbolTable)
    ensures
        r@ == canonical_symbols(),
        r.wf(),
{
    let mut symbols: Vec<char> = Vec::new();
    push_chars(&mut symbols, PAD);
    push_chars(&mut symbols, PUNCTUATION);
    push_chars(&mut symbols, LETTERS);
    push_chars(&mut symbols, LETTERS_IPA);
    proof {
        reveal_strlit("$");
        reveal_strlit(";:,.!?¡¿—…\"«»\"\" ");
        reveal_strlit("ABCDEFGHIJKLMNOPQRSTUVWXYZabcdefghijklmnopqrstuvwxyz");
        reveal_strlit("ɑɐɒæɓʙβɔɕçɗɖðʤəɘɚɛɜɝɞɟʄɡɠɢʛɦɧħɥʜɨɪʝɭɬɫɮʟɱɯɰŋɳɲɴøɵɸθœɶʘɹɺɾɻʀʁɽʂʃʈʧʉʊʋⱱʌɣɤʍχʎʏʑʐʒʔʡʕʢǀǁǂǃˈˌːˑʼʴʰʱʲʷˠˤ˞↓↑→↗↘'̩'ᵻ");
    }
    SymbolTable { symbols }
}

impl View for SymbolTable {
    type V = Seq<char>;

    closed spec fn view(&self) -> Seq<char> {
        self.symbols@
    }
}

impl SymbolTable {
    /// Token ids fit in `i64` and positions in `usize`.
    pub open spec fn wf(&self) -> bool {
        self@.len() <= 100_000
    }

    /// Number of symbols in the table.
    pub fn len(&self) -> (r: usize)
        ensures
            r == self@.len(),
    {
        self.symbols.len()
    }

    /// Token id of `c`, or `None` when `c` is not in the table.
    pub fn lookup(&self, c: char) -> (r: Option<usize>)
        ensures
            r matches Some(i) ==> last_index_of(self@, c) == Some(i as int),
            r is None ==> last_index_of(self@, c) is None,
    {
        let mut i: usize = self.symbols.len();
        assert(self@.subrange(0, i as int) =~= self@);
        while i > 0
            invariant
                i <= self@.len(),
                last_index_of(self@, c) == last_index_of(self@.subrange(0, i as int), c),
            decreases i,
        {
            let ghost pre = self@.subrange(0, i as int);
            assert(pre.drop_last() =~= self@.subrange(0, i - 1));
            if self.symbols[i - 1] == c {
                return Some(i - 1);
            }
            i = i - 1;
        }
        None
    }

    /// Token ids of the phoneme string `phonemes`; unknown characters are skipped.
    pub fn tokenize(&self, phonemes: &str) -> (r: Vec<i64>)
        requires
            self.wf(),
        ensures
            r@ == tokens_of(self@, phonemes@),
    {
        let chars = chars_of(phonemes);
        let n = chars.len();
        let mut out: Vec<i64> = Vec::new();
        let mut i: usize = 0;
        while i < n
            invariant
                self.wf(),
                n == chars@.len(),
                chars@ == phonemes@,
                i <= n,
                out@ == tokens_of(self@, phonemes@.subrange(0, i as int)),
            decreases n - i,
        {
            let c = chars[i];
            let ghost next = phonemes@.subrange(0, i + 1);
            assert(next.drop_last() =~= phonemes@.subrange(0, i as int));
            match self.lookup(c) {
                Some(id) => {
                    out.push(id as i64);
                },
                None => {},
            }
            i = i + 1;
        }
        assert(phonemes@.subrange(0, n as int) =~= phonemes@);
        out
    }

    /// The engine input for one chunk: `initial_silence` silence tokens, then the token ids
    /// of `phonemes`.
    pub fn chunk_tokens(&self, phonemes: &str, initial_silence: usize) -> (r: Vec<i64>)
        requires
            self.wf(),
        ensures
            r@ == silence(initial_silence as nat) + tokens_of(self@, phonemes@),
    {
        let tokens = self.tokenize(phonemes);
        let mut out: Vec<i64> = Vec::new();
        let mut i: usize = 0;
        while i < initial_silence
            invariant
                i <= initial_silence,
                out@ == silence(i as nat),
            decreases initial_silence - i,
        {
            out.push(SILENCE_TOKEN);
            i = i + 1;
            assert(out@ =~= silence(i as nat));
        }
        let mut j: usize = 0;
        while j < tokens.len()
            invariant
                j <= tokens@.len(),
                out@ == silence(initial_silence as nat) + tokens@.subrange(0, j as int),
            decreases tokens@.len() - j,
        {
            out.push(tokens[j]);
            j = j + 1;
            assert(out@ =~= silence(initial_silence as nat) + tokens@.subrange(0, j as int));
        }
        assert(tokens@.subrange(0, j as int) =~= tokens@);
        out
    }
}

/// A token id names its symbol: `c` sits at the position `last_index_of` gives.
pub proof fn lemma_index_holds_symbol(s: Seq<char>, c: char)
    ensures
        last_index_of(s, c) matches Some(i) ==> 0 <= i < s.len() && s[i] == c,
    decreases s.len(),
{
    if s.len() > 0 && s.last() != c {
        lemma_index_holds_symbol(s.drop_last(), c);
    }
}

/// Distinct characters get distinct token ids: the table is one to one on the characters it
/// knows.
pub proof fn lemma_ids_distinct(t: &SymbolTable, c1: char, c2: char)
    requires
        last_index_of(t@, c1) is Some,
        c1 != c2,
    ensures
        last_index_of(t@, c1) != last_index_of(t@, c2),
{
    lemma_index_holds_symbol(t@, c1);
    lemma_index_holds_symbol(t@, c2);
}

} // verus!
