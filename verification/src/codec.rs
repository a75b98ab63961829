//! The cipher itself: a streaming encoder that turns one plaintext character
//! at a time into Key-Alphabet output characters, and a batch decoder that
//! recovers the plaintext from a complete obfuscated string.
//!
//! Wire format, for a session `variance >= 2`: the first output character
//! announces the session key (it is the key character itself, produced by a
//! sentinel digit `0`). Every later plaintext character is sent as its
//! content index's base-`variance` digits, most significant first, followed
//! by one terminator digit `variance + 1 + (content_index % (variance - 1))`,
//! each digit shifted by the key modulo the Key Alphabet's size.

use vstd::prelude::*;

verus! {

use crate::alphabet::{
    char_alphabet, find_char, key_alphabet, key_chars, content_chars, find_in,
    get_k, lemma_find_char_of_member, lemma_find_char_props, lemma_key_alphabet_distinct,
    CHAR_LEN, KEY_LEN,
};
use crate::base::{
    compress, digit_seq, expand, expand_base, lemma_compress_expand, lemma_compress_nonneg,
    lemma_compress_prefix_le, lemma_compress_take_step, lemma_expand_digits,
};

/// Largest accepted `variance`: keeps every digit computation, and the digit
/// plus a key index, inside `usize` on any machine.
pub const MAX_VARIANCE: usize = 0x3fff_ffff;

/// Why a decode call failed.
#[derive(Debug, Clone, Copy, PartialEq, Eq, Structural)]
pub enum DecodeError {
    /// Decode was called on an empty string.
    EmptyInput,
    /// The first input character is not a Key Alphabet member.
    InvalidKey(char),
    /// A completed chunk's value is outside the Character Alphabet.
    BadIndex(usize),
    /// The whole input produced no output character at all.
    NoSeparators(usize),
}

/// Mutable session state threaded through streaming encode calls: the
/// current key, if one has been established, and how many output characters
/// each recent plaintext character produced (for retracting keystrokes on
/// backspace; bounded to the last 50 entries).
pub struct CipherState {
    pub key: Option<usize>,
    pub lens: Vec<usize>,
}

impl CipherState {
    /// A valid session state: the key, when set, indexes the Key Alphabet,
    /// and the emission-length history is bounded.
    pub open spec fn wf(self) -> bool {
        &&& (self.key is Some ==> self.key->0 < KEY_LEN)
        &&& self.lens@.len() <= 50
    }

    /// Fresh session state: no key established, no emission history.
    pub fn new() -> (s: CipherState)
        ensures
            s.key is None,
            s.lens@ == Seq::<usize>::empty(),
            s.wf(),
    {
        CipherState { key: None, lens: Vec::new() }
    }
}

/// The emission-length history after recording one more count: append it,
/// keeping only the most recent 50 entries.
pub open spec fn history_push(h: Seq<usize>, n: usize) -> Seq<usize> {
    if h.len() < 50 {
        h.push(n)
    } else {
        h.drop_first().push(n)
    }
}

/// The digit sequence emitted for content index `ci`: its base-`variance`
/// digits, then one terminator digit, which is at least `variance` (so the
/// decoder can tell it from a data digit) and carries a residue of `ci`.
pub open spec fn coded_digits(variance: int, ci: int) -> Seq<int> {
    expand(variance, ci).push(variance + 1 + ci % (variance - 1))
}

/// The output characters for digit sequence `ds` under session key `k`:
/// each digit is shifted by the key, modulo the Key Alphabet's size.
pub open spec fn emit(k: int, ds: Seq<int>) -> Seq<char> {
    ds.map_values(|d: int| key_alphabet()[(d + k) % (KEY_LEN as int)])
}

/// The characters one encoder step produces for plaintext character `c`
/// under key state `key`. A character outside the Character Alphabet is
/// dropped; so is one that cannot establish a key when none is set. When a
/// key is freshly established, a sentinel digit `0` is sent first: shifted
/// by the new key it reproduces `c` itself and announces the key.
pub open spec fn encode_char_out(variance: int, key: Option<usize>, c: char) -> Seq<char> {
    match find_char(char_alphabet(), c) {
        None => seq![],
        Some(ci) => match key {
            Some(k) => emit(k as int, coded_digits(variance, ci)),
            None => match find_char(key_alphabet(), c) {
                None => seq![],
                Some(k) => emit(k, seq![0int] + coded_digits(variance, ci)),
            },
        },
    }
}

/// The key state after one encoder step: set from `c`'s key index when `c`
/// is representable and no key is set yet, otherwise unchanged.
pub open spec fn encode_char_key(key: Option<usize>, c: char) -> Option<usize> {
    match find_char(char_alphabet(), c) {
        None => key,
        Some(ci) => match key {
            Some(k) => Some(k),
            None => match find_char(key_alphabet(), c) {
                None => None,
                Some(k) => Some(k as usize),
            },
        },
    }
}

/// The full output for plaintext `s`, starting from key state `key`.
pub open spec fn encode_seq(variance: int, key: Option<usize>, s: Seq<char>) -> Seq<char>
    decreases s.len(),
{
    if s.len() == 0 {
        seq![]
    } else {
        encode_char_out(variance, key, s[0]) + encode_seq(
            variance,
            encode_char_key(key, s[0]),
            s.drop_first(),
        )
    }
}

/// Decoder state between input characters: the digits of the chunk being
/// accumulated, and the output produced so far.
pub struct DecodeSt {
    pub chunk: Seq<int>,
    pub out: Seq<char>,
}

/// One decoder step on input character `x`. A character outside the Key
/// Alphabet passes through to the output verbatim. A Key Alphabet member is
/// unshifted by the key; an offset of at least `variance` is a terminator,
/// which closes the chunk, converts it to a content index and outputs that
/// Character Alphabet symbol; a smaller offset is the chunk's next digit.
pub open spec fn decode_step(variance: int, key: int, st: DecodeSt, x: char) -> Result<
    DecodeSt,
    DecodeError,
> {
    match find_char(key_alphabet(), x) {
        None => Ok(DecodeSt { chunk: st.chunk, out: st.out.push(x) }),
        Some(idx) => {
            let off = (idx - key) % (KEY_LEN as int);
            if off >= variance {
                let ci = compress(variance, st.chunk);
                if 0 <= ci < CHAR_LEN {
                    Ok(
                        DecodeSt {
                            chunk: Seq::<int>::empty(),
                            out: st.out.push(char_alphabet()[ci]),
                        },
                    )
                } else {
                    Err(DecodeError::BadIndex(key as usize))
                }
            } else {
                Ok(DecodeSt { chunk: st.chunk.push(off), out: st.out })
            }
        },
    }
}

/// The decoder run over the input characters `s`, from state `st`.
pub open spec fn decode_run(variance: int, key: int, st: DecodeSt, s: Seq<char>) -> Result<
    DecodeSt,
    DecodeError,
>
    decreases s.len(),
{
    if s.len() == 0 {
        Ok(st)
    } else {
        match decode_step(variance, key, st, s[0]) {
            Err(e) => Err(e),
            Ok(st2) => decode_run(variance, key, st2, s.drop_first()),
        }
    }
}

/// What decoding the whole input returns: the key is read from the first
/// character, the rest is run through `decode_step`, and an input that
/// produced no output at all is rejected.
pub open spec fn decode_spec(variance: int, input: Seq<char>) -> Result<Seq<char>, DecodeError> {
    if input.len() == 0 {
        Err(DecodeError::EmptyInput)
    } else {
        match find_char(key_alphabet(), input[0]) {
            None => Err(DecodeError::InvalidKey(input[0])),
            Some(key) => match decode_run(
                variance,
                key,
                DecodeSt { chunk: Seq::<int>::empty(), out: Seq::<char>::empty() },
                input.drop_first(),
            ) {
                Err(e) => Err(e),
                Ok(st) => if st.out.len() == 0 {
                    Err(DecodeError::NoSeparators(key as usize))
                } else {
                    Ok(st.out)
                },
            },
        }
    }
}

/// Literal passthrough: a character outside the Key Alphabet is reproduced
/// unchanged, in place, by the decoder, and leaves the open chunk and the
/// rest of the decoder state untouched.
pub proof fn lemma_literal_passthrough(variance: int, key: int, st: DecodeSt, c: char)
    requires
        find_char(key_alphabet(), c) is None,
    ensures
        decode_step(variance, key, st, c) == Ok::<DecodeSt, DecodeError>(
            DecodeSt { chunk: st.chunk, out: st.out.push(c) },
        ),
{
}

/// Splitting a decoder input: running the decoder over `a + b` is running
/// it over `a` and, if that did not fail, continuing over `b` from the
/// state `a` left behind.
pub proof fn lemma_decode_run_append(variance: int, key: int, st: DecodeSt, a: Seq<char>, b: Seq<char>)
    ensures
        decode_run(variance, key, st, a + b) == match decode_run(variance, key, st, a) {
            Ok(st2) => decode_run(variance, key, st2, b),
            Err(e) => Err(e),
        },
    decreases a.len(),
{
    if a.len() == 0 {
        assert(a + b =~= b);
    } else {
        assert((a + b)[0] == a[0]);
        assert((a + b).drop_first() =~= a.drop_first() + b);
        match decode_step(variance, key, st, a[0]) {
            Err(e) => {},
            Ok(st2) => {
                lemma_decode_run_append(variance, key, st2, a.drop_first(), b);
            },
        }
    }
}

/// Literal passthrough over a whole stretch: a run of characters outside
/// the Key Alphabet, wherever it stands in the input, is reproduced in the
/// output verbatim and in order, and the open chunk survives it untouched.
pub proof fn lemma_literal_run(variance: int, key: int, st: DecodeSt, s: Seq<char>)
    requires
        forall|i: int| 0 <= i < s.len() ==> find_char(key_alphabet(), #[trigger] s[i]) is None,
    ensures
        decode_run(variance, key, st, s) == Ok::<DecodeSt, DecodeError>(
            DecodeSt { chunk: st.chunk, out: st.out + s },
        ),
    decreases s.len(),
{
    if s.len() == 0 {
        assert(st.out + s =~= st.out);
        assert(DecodeSt { chunk: st.chunk, out: st.out + s } == st);
    } else {
        lemma_literal_passthrough(variance, key, st, s[0]);
        let st2 = DecodeSt { chunk: st.chunk, out: st.out.push(s[0]) };
        assert forall|i: int|
            0 <= i < s.drop_first().len() implies find_char(
            key_alphabet(),
            #[trigger] s.drop_first()[i],
        ) is None by {
            assert(s.drop_first()[i] == s[i + 1]);
        }
        lemma_literal_run(variance, key, st2, s.drop_first());
        assert(st.out.push(s[0]) + s.drop_first() =~= st.out + s);
    }
}

/// Key establishment: when no key is set and the plaintext character is a
/// member of both alphabets, the first character the encoder emits is that
/// character itself.
pub proof fn lemma_key_establishment(variance: int, c: char)
    requires
        find_char(char_alphabet(), c) is Some,
        find_char(key_alphabet(), c) is Some,
    ensures
        encode_char_out(variance, None::<usize>, c).len() > 0,
        encode_char_out(variance, None::<usize>, c)[0] == c,
{
    let k = find_char(key_alphabet(), c)->0;
    let ci = find_char(char_alphabet(), c)->0;
    lemma_find_char_props(key_alphabet(), c);
    let ds = seq![0int] + coded_digits(variance, ci);
    assert(ds[0] == 0);
    assert(encode_char_out(variance, None::<usize>, c) == emit(k, ds));
    assert(emit(k, ds)[0] == key_alphabet()[(0 + k) % (KEY_LEN as int)]);
    assert((0 + k) % (KEY_LEN as int) == k) by {
        vstd::arithmetic::div_mod::lemma_small_mod(k as nat, KEY_LEN as nat);
    }
}

/// The value of the open chunk, as a content index: `Some` when it is small
/// enough to index the Character Alphabet, `None` when it is out of range.
fn chunk_value(variance: usize, chunk: &Vec<usize>) -> (r: Option<usize>)
    requires
        2 <= variance,
    ensures
        match r {
            Some(ci) => ci < CHAR_LEN && ci == compress(variance as int, digit_seq(chunk@)),
            None => compress(variance as int, digit_seq(chunk@)) >= CHAR_LEN,
        },
{
    let ghost ds = digit_seq(chunk@);
    proof {
        assert(forall|t: int| 0 <= t < ds.len() ==> #[trigger] ds[t] >= 0);
        assert(ds.take(0) =~= Seq::<int>::empty());
    }
    let mut acc: usize = 0;
    let mut j: usize = 0;
    while j < chunk.len()
        invariant
            2 <= variance,
            j <= chunk.len(),
            ds == digit_seq(chunk@),
            forall|t: int| 0 <= t < ds.len() ==> #[trigger] ds[t] >= 0,
            acc == compress(variance as int, ds.take(j as int)),
            acc < CHAR_LEN,
        decreases chunk.len() - j,
    {
        proof {
            lemma_compress_take_step(variance as int, ds, j as int);
            lemma_compress_prefix_le(variance as int, ds, j as int + 1);
            assert(ds[j as int] == chunk@[j as int] as int);
        }
        let next = match acc.checked_mul(variance) {
            None => {
                return None;
            },
            Some(p) => match p.checked_add(chunk[j]) {
                None => {
                    return None;
                },
                Some(s) => s,
            },
        };
        if next >= CHAR_LEN {
            return None;
        }
        acc = next;
        j += 1;
    }
    proof {
        assert(ds.take(chunk.len() as int) =~= ds);
    }
    Some(acc)
}

/// Decode `input` with the given `variance`, as `decode_spec` describes:
/// recover the plaintext, or report the first failure.
pub fn decode(variance: usize, input: &str) -> (r: Result<String, DecodeError>)
    requires
        2 <= variance,
    ensures
        match r {
            Ok(s) => decode_spec(variance as int, input@) == Ok::<Seq<char>, DecodeError>(s@),
            Err(e) => decode_spec(variance as int, input@) == Err::<Seq<char>, DecodeError>(e),
        },
{
    let n = input.unicode_len();
    if n == 0 {
        return Err(DecodeError::EmptyInput);
    }
    let ktab = key_chars();
    let first = input.get_char(0);
    let key: usize = match find_in(&ktab, first) {
        None => {
            return Err(DecodeError::InvalidKey(first));
        },
        Some(k) => k,
    };
    proof {
        lemma_find_char_props(key_alphabet(), first);
    }
    let ctab = content_chars();
    let ghost st0 = DecodeSt { chunk: Seq::<int>::empty(), out: Seq::<char>::empty() };
    let ghost goal = decode_run(variance as int, key as int, st0, input@.drop_first());
    let mut chunk: Vec<usize> = Vec::new();
    let mut out = String::new();
    let mut i: usize = 1;
    proof {
        assert(input@.skip(1) =~= input@.drop_first());
        assert(digit_seq(chunk@) =~= Seq::<int>::empty());
    }
    while i < n
        invariant
            2 <= variance,
            1 <= i <= n,
            n == input@.len(),
            key < KEY_LEN,
            ktab@ == key_alphabet(),
            ctab@ == char_alphabet(),
            find_char(key_alphabet(), input@[0]) == Some(key as int),
            st0 == (DecodeSt { chunk: Seq::<int>::empty(), out: Seq::<char>::empty() }),
            goal == decode_run(variance as int, key as int, st0, input@.drop_first()),
            goal == decode_run(
                variance as int,
                key as int,
                DecodeSt { chunk: digit_seq(chunk@), out: out@ },
                input@.skip(i as int),
            ),
        decreases n - i,
    {
        let ghost st_now = DecodeSt { chunk: digit_seq(chunk@), out: out@ };
        let ghost rest = input@.skip(i as int);
        proof {
            assert(rest[0] == input@[i as int]);
            assert(rest.drop_first() =~= input@.skip(i as int + 1));
        }
        let x = input.get_char(i);
        match find_in(&ktab, x) {
            None => {
                push_char(&mut out, x);
            },
            Some(idx) => {
                proof {
                    lemma_find_char_props(key_alphabet(), x);
                }
                let off = (idx + KEY_LEN - key) % KEY_LEN;
                proof {
                    vstd::arithmetic::div_mod::lemma_mod_add_multiples_vanish(
                        idx as int - key as int,
                        KEY_LEN as int,
                    );
                    assert(off == (idx as int - key as int) % (KEY_LEN as int));
                }
                if off >= variance {
                    match chunk_value(variance, &chunk) {
                        None => {
                            proof {
                                assert(forall|t: int|
                                    0 <= t < st_now.chunk.len() ==> #[trigger] st_now.chunk[t]
                                        >= 0);
                                lemma_compress_nonneg(variance as int, st_now.chunk);
                                assert(decode_step(variance as int, key as int, st_now, rest[0])
                                    == Err::<DecodeSt, DecodeError>(DecodeError::BadIndex(key)));
                                assert(decode_run(variance as int, key as int, st_now, rest)
                                    == Err::<DecodeSt, DecodeError>(DecodeError::BadIndex(key)));
                                assert(goal == Err::<DecodeSt, DecodeError>(
                                    DecodeError::BadIndex(key),
                                ));
                                assert(decode_spec(variance as int, input@)
                                    == Err::<Seq<char>, DecodeError>(DecodeError::BadIndex(key)));
                            }
                            return Err(DecodeError::BadIndex(key));
                        },
                        Some(ci) => {
                            let sym = ctab[ci];
                            push_char(&mut out, sym);
                            chunk.clear();
                            proof {
                                assert(digit_seq(chunk@) =~= Seq::<int>::empty());
                            }
                        },
                    }
                } else {
                    chunk.push(off);
                    proof {
                        assert(digit_seq(chunk@) =~= st_now.chunk.push(off as int));
                    }
                }
            },
        }
        i += 1;
    }
    proof {
        assert(input@.skip(n as int) =~= Seq::<char>::empty());
    }
    if out.as_str().unicode_len() == 0 {
        Err(DecodeError::NoSeparators(key))
    } else {
        Ok(out)
    }
}

/// Relies on String::push: appends one character to the end of the string.
#[verifier::external_body]
fn push_char(s: &mut String, c: char)
    ensures
        final(s)@ == old(s)@.push(c),
{
    s.push(c);
}

/// Encode one plaintext character, updating the session state, and return
/// the output characters produced, as `encode_char_out` and
/// `encode_char_key` describe. A character the codec cannot represent, or
/// cannot establish a key from, is dropped: no output, state unchanged.
///
/// A caller driving live keystrokes retracts the keystroke just typed
/// exactly when the result is non-empty, then sends the result's
/// characters in order; the recorded emission lengths say how many
/// keystrokes to retract on a later backspace.
pub fn encode_char(variance: usize, state: &mut CipherState, c: char) -> (out: Vec<char>)
    requires
        2 <= variance <= MAX_VARIANCE,
        old(state).wf(),
    ensures
        final(state).wf(),
        out@ == encode_char_out(variance as int, old(state).key, c),
        final(state).key == encode_char_key(old(state).key, c),
        out@.len() == 0 ==> *final(state) == *old(state),
        out@.len() > 0 ==> final(state).lens@ == history_push(
            old(state).lens@,
            out@.len() as usize,
        ),
{
    let ctab = content_chars();
    let ci: usize = match find_in(&ctab, c) {
        None => {
            return Vec::new();
        },
        Some(ci) => ci,
    };
    proof {
        lemma_find_char_props(char_alphabet(), c);
    }
    let mut digits = expand_base(variance, ci);
    let k: usize = match state.key {
        Some(kk) => kk,
        None => {
            match get_k(c) {
                None => {
                    return Vec::new();
                },
                Some(kk) => {
                    proof {
                        lemma_find_char_props(key_alphabet(), c);
                    }
                    state.key = Some(kk);
                    digits.insert(0, 0);
                    kk
                },
            }
        },
    };
    let term = variance + 1 + (ci % (variance - 1));
    digits.push(term);
    let ghost ds = digit_seq(digits@);
    proof {
        lemma_expand_digits(variance as int, ci as int);
        if old(state).key is Some {
            assert(ds =~= coded_digits(variance as int, ci as int));
        } else {
            assert(digit_seq(digits@.drop_last()) =~= seq![0int] + expand(
                variance as int,
                ci as int,
            ));
            assert(ds =~= seq![0int] + coded_digits(variance as int, ci as int));
        }
    }
    let ktab = key_chars();
    let mut out: Vec<char> = Vec::new();
    let mut j: usize = 0;
    while j < digits.len()
        invariant
            j <= digits.len(),
            k < KEY_LEN,
            ds == digit_seq(digits@),
            ktab@ == key_alphabet(),
            out@.len() == j,
            forall|t: int|
                0 <= t < j ==> out@[t] == key_alphabet()[(#[trigger] ds[t] + k as int) % (
                KEY_LEN as int)],
        decreases digits.len() - j,
    {
        let d = digits[j];
        let t1 = d % KEY_LEN;
        let idx = (t1 + k) % KEY_LEN;
        let sym = ktab[idx];
        out.push(sym);
        proof {
            assert(ds[j as int] == digits@[j as int] as int);
            vstd::arithmetic::div_mod::lemma_add_mod_noop(d as int, k as int, KEY_LEN as int);
            vstd::arithmetic::div_mod::lemma_small_mod(k as nat, KEY_LEN as nat);
            assert(idx as int == (ds[j as int] + k as int) % (KEY_LEN as int));
        }
        j += 1;
    }
    proof {
        assert forall|t: int| 0 <= t < ds.len() implies emit(k as int, ds)[t] == out@[t] by {
            assert(emit(k as int, ds)[t] == key_alphabet()[(ds[t] + k as int) % (KEY_LEN as int)]);
        }
        assert(out@ =~= emit(k as int, ds));
    }
    let produced = out.len();
    state.lens.push(produced);
    if state.lens.len() > 50 {
        state.lens.remove(0);
        proof {
            assert(state.lens@ =~= history_push(old(state).lens@, produced));
        }
    } else {
        proof {
            assert(state.lens@ =~= history_push(old(state).lens@, produced));
        }
    }
    out
}


/// Shifting a digit by the key and unshifting it in the decoder cancel:
/// the decoder recovers exactly `d` from the character emitted for `d`,
/// for any digit `0 <= d < KEY_LEN`.
proof fn lemma_shift_recover(d: int, k: int)
    requires
        0 <= d < KEY_LEN,
        0 <= k < KEY_LEN,
    ensures
        (((d + k) % (KEY_LEN as int)) - k) % (KEY_LEN as int) == d,
{
    let n = KEY_LEN as int;
    vstd::arithmetic::div_mod::lemma_sub_mod_noop(d + k, k, n);
    vstd::arithmetic::div_mod::lemma_small_mod(k as nat, KEY_LEN as nat);
    vstd::arithmetic::div_mod::lemma_small_mod(d as nat, KEY_LEN as nat);
    assert((d + k - k) % n == d % n);
}

/// A run of data digits (each below `variance`) is absorbed into the open
/// chunk, in order, without touching the output.
proof fn lemma_digits_absorbed(variance: int, k: int, ds: Seq<int>, st: DecodeSt, rest: Seq<char>)
    requires
        2 <= variance,
        2 * variance <= KEY_LEN,
        0 <= k < KEY_LEN,
        forall|t: int| 0 <= t < ds.len() ==> 0 <= #[trigger] ds[t] < variance,
    ensures
        decode_run(variance, k, st, emit(k, ds) + rest) == decode_run(
            variance,
            k,
            DecodeSt { chunk: st.chunk + ds, out: st.out },
            rest,
        ),
    decreases ds.len(),
{
    lemma_key_alphabet_distinct();
    if ds.len() == 0 {
        assert(emit(k, ds) + rest =~= rest);
        assert(st.chunk + ds =~= st.chunk);
        assert(DecodeSt { chunk: st.chunk + ds, out: st.out } == st);
    } else {
        let n = KEY_LEN as int;
        let d0 = ds[0];
        let pos = (d0 + k) % n;
        vstd::arithmetic::div_mod::lemma_mod_bound(d0 + k, n);
        let x = key_alphabet()[pos];
        lemma_find_char_of_member(key_alphabet(), pos);
        lemma_shift_recover(d0, k);
        let whole = emit(k, ds) + rest;
        assert(whole[0] == emit(k, ds)[0]);
        assert(emit(k, ds)[0] == x);
        assert(decode_step(variance, k, st, x) == Ok::<DecodeSt, DecodeError>(
            DecodeSt { chunk: st.chunk.push(d0), out: st.out },
        ));
        let st2 = DecodeSt { chunk: st.chunk.push(d0), out: st.out };
        assert forall|t: int|
            0 <= t < ds.drop_first().len() implies (emit(k, ds).drop_first())[t] == emit(
            k,
            ds.drop_first(),
        )[t] by {
            assert(emit(k, ds)[t + 1] == key_alphabet()[(ds[t + 1] + k) % n]);
            assert(ds.drop_first()[t] == ds[t + 1]);
        }
        assert(whole.drop_first() =~= emit(k, ds.drop_first()) + rest);
        lemma_digits_absorbed(variance, k, ds.drop_first(), st2, rest);
        assert(st2.chunk + ds.drop_first() =~= st.chunk + ds);
        assert(decode_run(variance, k, st, whole) == decode_run(
            variance,
            k,
            st2,
            whole.drop_first(),
        ));
    }
}

/// The emission for one plaintext character of content index `ci`, read by
/// the decoder from an empty chunk, produces exactly the Character Alphabet
/// symbol at `ci` and leaves the chunk empty again.
proof fn lemma_coded_char(variance: int, k: int, ci: int, out: Seq<char>, rest: Seq<char>)
    requires
        2 <= variance,
        2 * variance <= KEY_LEN,
        0 <= k < KEY_LEN,
        0 <= ci < CHAR_LEN,
    ensures
        decode_run(
            variance,
            k,
            DecodeSt { chunk: Seq::<int>::empty(), out },
            emit(k, coded_digits(variance, ci)) + rest,
        ) == decode_run(
            variance,
            k,
            DecodeSt { chunk: Seq::<int>::empty(), out: out.push(char_alphabet()[ci]) },
            rest,
        ),
{
    let n = KEY_LEN as int;
    lemma_key_alphabet_distinct();
    lemma_expand_digits(variance, ci);
    lemma_compress_expand(variance, ci);
    let dd = expand(variance, ci);
    let term = variance + 1 + ci % (variance - 1);
    vstd::arithmetic::div_mod::lemma_mod_bound(ci, variance - 1);
    assert(variance <= term <= 2 * variance - 1);
    assert(coded_digits(variance, ci) == dd.push(term));
    assert forall|t: int|
        0 <= t < emit(k, dd.push(term)).len() implies emit(k, dd.push(term))[t] == (emit(k, dd)
        + emit(k, seq![term]))[t] by {
        assert(emit(k, dd.push(term))[t] == key_alphabet()[(dd.push(term)[t] + k) % n]);
        if t < dd.len() {
            assert(dd.push(term)[t] == dd[t]);
            assert(emit(k, dd)[t] == key_alphabet()[(dd[t] + k) % n]);
        } else {
            assert(dd.push(term)[t] == term);
            assert(emit(k, seq![term])[0] == key_alphabet()[(term + k) % n]);
        }
    }
    assert(emit(k, dd.push(term)) =~= emit(k, dd) + emit(k, seq![term]));
    let st_in = DecodeSt { chunk: Seq::<int>::empty(), out };
    assert(emit(k, coded_digits(variance, ci)) + rest =~= emit(k, dd) + (emit(k, seq![term])
        + rest));
    lemma_digits_absorbed(variance, k, dd, st_in, emit(k, seq![term]) + rest);
    let st_mid = DecodeSt { chunk: Seq::<int>::empty() + dd, out };
    assert(st_mid.chunk =~= dd);
    let pos = (term + k) % n;
    vstd::arithmetic::div_mod::lemma_mod_bound(term + k, n);
    let x = key_alphabet()[pos];
    lemma_find_char_of_member(key_alphabet(), pos);
    lemma_shift_recover(term, k);
    assert((emit(k, seq![term]) + rest)[0] == emit(k, seq![term])[0]);
    assert(emit(k, seq![term])[0] == x);
    assert(compress(variance, st_mid.chunk) == ci);
    assert(decode_step(variance, k, st_mid, x) == Ok::<DecodeSt, DecodeError>(
        DecodeSt { chunk: Seq::<int>::empty(), out: out.push(char_alphabet()[ci]) },
    ));
    assert((emit(k, seq![term]) + rest).drop_first() =~= rest);
}

/// The subsequence of `s` that the codec can represent: its Character
/// Alphabet members, in order.
pub open spec fn kept(s: Seq<char>) -> Seq<char>
    decreases s.len(),
{
    if s.len() == 0 {
        seq![]
    } else if find_char(char_alphabet(), s[0]) is Some {
        seq![s[0]] + kept(s.drop_first())
    } else {
        kept(s.drop_first())
    }
}

/// A plaintext made entirely of Character Alphabet members is kept whole.
proof fn lemma_kept_all(s: Seq<char>)
    requires
        forall|i: int| 0 <= i < s.len() ==> find_char(char_alphabet(), #[trigger] s[i]) is Some,
    ensures
        kept(s) == s,
    decreases s.len(),
{
    if s.len() > 0 {
        assert forall|i: int|
            0 <= i < s.drop_first().len() implies find_char(
            char_alphabet(),
            #[trigger] s.drop_first()[i],
        ) is Some by {
            assert(s.drop_first()[i] == s[i + 1]);
        }
        lemma_kept_all(s.drop_first());
        assert(seq![s[0]] + s.drop_first() =~= s);
    }
}

/// With the key `k` already established, the decoder run over the encoding
/// of any plaintext `s` appends exactly the representable part of `s` to
/// the output and leaves no chunk open.
proof fn lemma_session(variance: int, k: int, s: Seq<char>, out: Seq<char>)
    requires
        2 <= variance,
        2 * variance <= KEY_LEN,
        0 <= k < KEY_LEN,
    ensures
        decode_run(
            variance,
            k,
            DecodeSt { chunk: Seq::<int>::empty(), out },
            encode_seq(variance, Some(k as usize), s),
        ) == Ok::<DecodeSt, DecodeError>(
            DecodeSt { chunk: Seq::<int>::empty(), out: out + kept(s) },
        ),
    decreases s.len(),
{
    if s.len() == 0 {
        assert(out + kept(s) =~= out);
    } else {
        let c = s[0];
        let restenc = encode_seq(variance, Some(k as usize), s.drop_first());
        match find_char(char_alphabet(), c) {
            None => {
                assert(encode_char_out(variance, Some(k as usize), c) == Seq::<char>::empty());
                assert(encode_char_key(Some(k as usize), c) == Some(k as usize));
                assert(encode_seq(variance, Some(k as usize), s) =~= restenc);
                lemma_session(variance, k, s.drop_first(), out);
                assert(kept(s) == kept(s.drop_first()));
            },
            Some(ci) => {
                lemma_find_char_props(char_alphabet(), c);
                assert(char_alphabet()[ci] == c);
                assert(encode_char_out(variance, Some(k as usize), c) == emit(
                    k,
                    coded_digits(variance, ci),
                ));
                assert(encode_char_key(Some(k as usize), c) == Some(k as usize));
                assert(encode_seq(variance, Some(k as usize), s) == emit(
                    k,
                    coded_digits(variance, ci),
                ) + restenc);
                lemma_coded_char(variance, k, ci, out, restenc);
                lemma_session(variance, k, s.drop_first(), out.push(c));
                assert(out.push(c) + kept(s.drop_first()) =~= out + kept(s));
            },
        }
    }
}

/// Decoding the encoding of a plaintext whose first character establishes
/// the key recovers that character and the representable part of the rest.
proof fn lemma_keyed_decode(variance: int, s: Seq<char>)
    requires
        2 <= variance,
        2 * variance <= KEY_LEN,
        s.len() > 0,
        find_char(char_alphabet(), s[0]) is Some,
        find_char(key_alphabet(), s[0]) is Some,
    ensures
        decode_spec(variance, encode_seq(variance, None::<usize>, s)) == Ok::<
            Seq<char>,
            DecodeError,
        >(seq![s[0]] + kept(s.drop_first())),
{
    let n = KEY_LEN as int;
    lemma_key_alphabet_distinct();
    let c0 = s[0];
    let k = find_char(key_alphabet(), c0)->0;
    let ci0 = find_char(char_alphabet(), c0)->0;
    lemma_find_char_props(key_alphabet(), c0);
    lemma_find_char_props(char_alphabet(), c0);
    assert(key_alphabet()[k] == c0);
    assert(char_alphabet()[ci0] == c0);
    let ds = seq![0int] + coded_digits(variance, ci0);
    let restenc = encode_seq(variance, Some(k as usize), s.drop_first());
    assert(encode_char_out(variance, None::<usize>, c0) == emit(k, ds));
    assert(encode_char_key(None::<usize>, c0) == Some(k as usize));
    let full = encode_seq(variance, None::<usize>, s);
    assert(full == emit(k, ds) + restenc);
    assert(emit(k, ds).len() == ds.len());
    assert(full.len() > 0);
    assert(ds[0] == 0);
    assert(emit(k, ds)[0] == key_alphabet()[(0 + k) % n]);
    assert((0 + k) % n == k) by {
        vstd::arithmetic::div_mod::lemma_small_mod(k as nat, KEY_LEN as nat);
    }
    assert(full[0] == c0);
    assert(find_char(key_alphabet(), full[0]) == Some(k));
    assert forall|t: int|
        0 <= t < ds.drop_first().len() implies (emit(k, ds).drop_first())[t] == emit(
        k,
        coded_digits(variance, ci0),
    )[t] by {
        assert(emit(k, ds)[t + 1] == key_alphabet()[(ds[t + 1] + k) % n]);
        assert(ds[t + 1] == coded_digits(variance, ci0)[t]);
    }
    assert(emit(k, ds).drop_first() =~= emit(k, coded_digits(variance, ci0)));
    assert(full.drop_first() =~= emit(k, coded_digits(variance, ci0)) + restenc);
    lemma_coded_char(variance, k, ci0, Seq::<char>::empty(), restenc);
    assert(Seq::<char>::empty().push(c0) =~= seq![c0]);
    lemma_session(variance, k, s.drop_first(), seq![c0]);
    assert(decode_run(
        variance,
        k,
        DecodeSt { chunk: Seq::<int>::empty(), out: Seq::<char>::empty() },
        full.drop_first(),
    ) == Ok::<DecodeSt, DecodeError>(
        DecodeSt { chunk: Seq::<int>::empty(), out: seq![c0] + kept(s.drop_first()) },
    ));
}

/// Round trip: for any plaintext made entirely of Character Alphabet
/// members whose first character is also a Key Alphabet member, decoding
/// the encoder's output with the same `variance` recovers the plaintext
/// exactly, whenever twice the `variance` does not exceed the Key
/// Alphabet's size (a larger `variance` lets a terminator digit wrap around
/// the alphabet and be misread as data).
pub proof fn lemma_round_trip(variance: int, s: Seq<char>)
    requires
        2 <= variance,
        2 * variance <= KEY_LEN,
        s.len() > 0,
        forall|i: int| 0 <= i < s.len() ==> find_char(char_alphabet(), #[trigger] s[i]) is Some,
        find_char(key_alphabet(), s[0]) is Some,
    ensures
        decode_spec(variance, encode_seq(variance, None::<usize>, s)) == Ok::<
            Seq<char>,
            DecodeError,
        >(s),
{
    lemma_keyed_decode(variance, s);
    assert forall|i: int|
        0 <= i < s.drop_first().len() implies find_char(
        char_alphabet(),
        #[trigger] s.drop_first()[i],
    ) is Some by {
        assert(s.drop_first()[i] == s[i + 1]);
    }
    lemma_kept_all(s.drop_first());
    assert(seq![s[0]] + s.drop_first() =~= s);
}

/// Terminator separation: decoding any encoder output made with the same
/// `variance` and alphabets never fails with `BadIndex` -- every content
/// index the decoder completes is inside the Character Alphabet. The
/// decode either succeeds, or the plaintext had no character that could
/// establish a key, so the output was empty.
pub proof fn lemma_terminator_separation(variance: int, s: Seq<char>)
    requires
        2 <= variance,
        2 * variance <= KEY_LEN,
    ensures
        decode_spec(variance, encode_seq(variance, None::<usize>, s)) is Ok || decode_spec(
            variance,
            encode_seq(variance, None::<usize>, s),
        ) == Err::<Seq<char>, DecodeError>(DecodeError::EmptyInput),
    decreases s.len(),
{
    if s.len() == 0 {
        assert(encode_seq(variance, None::<usize>, s).len() == 0);
    } else {
        let c = s[0];
        if find_char(char_alphabet(), c) is Some && find_char(key_alphabet(), c) is Some {
            lemma_keyed_decode(variance, s);
        } else {
            assert(encode_char_out(variance, None::<usize>, c) == Seq::<char>::empty());
            assert(encode_char_key(None::<usize>, c) == None::<usize>);
            assert(encode_seq(variance, None::<usize>, s) =~= encode_seq(
                variance,
                None::<usize>,
                s.drop_first(),
            ));
            lemma_terminator_separation(variance, s.drop_first());
        }
    }
}

/// Encode a whole plaintext string in one session, starting with no key,
/// as `encode_seq` describes. Unrepresentable characters are dropped; the
/// encoder never fails.
pub fn encode(variance: usize, s: &str) -> (out: String)
    requires
        2 <= variance <= MAX_VARIANCE,
    ensures
        out@ == encode_seq(variance as int, None::<usize>, s@),
{
    let n = s.unicode_len();
    let mut state = CipherState::new();
    let mut out = String::new();
    let mut i: usize = 0;
    proof {
        assert(s@.skip(0) =~= s@);
    }
    while i < n
        invariant
            2 <= variance <= MAX_VARIANCE,
            i <= n,
            n == s@.len(),
            state.wf(),
            out@ + encode_seq(variance as int, state.key, s@.skip(i as int)) == encode_seq(
                variance as int,
                None::<usize>,
                s@,
            ),
        decreases n - i,
    {
        let ghost rest = s@.skip(i as int);
        proof {
            assert(rest[0] == s@[i as int]);
            assert(rest.drop_first() =~= s@.skip(i as int + 1));
        }
        let c = s.get_char(i);
        let produced = encode_char(variance, &mut state, c);
        let ghost out_before = out@;
        let mut j: usize = 0;
        proof {
            assert(out@ =~= out_before + produced@.take(0));
        }
        while j < produced.len()
            invariant
                j <= produced.len(),
                out@ == out_before + produced@.take(j as int),
            decreases produced.len() - j,
        {
            push_char(&mut out, produced[j]);
            proof {
                assert(out@ =~= out_before + produced@.take(j as int + 1));
            }
            j += 1;
        }
        proof {
            assert(produced@.take(produced.len() as int) =~= produced@);
            assert(out@ + encode_seq(variance as int, state.key, s@.skip(i as int + 1)) =~= encode_seq(
                variance as int,
                None::<usize>,
                s@,
            ));
        }
        i += 1;
    }
    proof {
        assert(s@.skip(n as int) =~= Seq::<char>::empty());
        assert(out@ + encode_seq(variance as int, state.key, Seq::<char>::empty()) =~= out@);
    }
    out
}

} // verus!
