//! Trace and span identifiers, span contexts, and the W3C `traceparent` codec.
use vstd::prelude::*;

verus! {

/// An identifier for a trace, which groups a set of related spans together.
#[derive(Copy, Clone, Debug, PartialEq, Eq, Structural, Hash, Default)]
pub struct TraceId(pub u128);

/// An identifier for a span within a trace. `SpanId(0)` means "no parent".
#[derive(Copy, Clone, Debug, PartialEq, Eq, Structural, Hash, Default)]
pub struct SpanId(pub u64);

/// The portable handle of a span: its trace, its own id, and whether it is sampled.
#[derive(Copy, Clone, Debug, PartialEq, Eq, Structural, Default)]
pub struct SpanContext {
    pub trace_id: TraceId,
    pub span_id: SpanId,
    pub sampled: bool,
}

/// Relies on `rand::random`: a value drawn from the thread-local generator;
/// nothing is known of it.
pub assume_specification<T>[ rand::random::<T> ]() -> (r: T)
    where
        rand::distributions::Standard: rand::distributions::Distribution<T>,
;

impl TraceId {
    /// A random trace id.
    pub fn random() -> (r: TraceId) {
        TraceId(rand::random())
    }
}

impl SpanId {
    /// A random span id.
    pub fn random() -> (r: SpanId) {
        SpanId(rand::random())
    }
}

/// The span id made of a generator's prefix (high half) and suffix (low half).
pub open spec fn compose_id(prefix: u32, suffix: u32) -> u64 {
    (prefix as int * 0x1_0000_0000 + suffix as int) as u64
}

/// The suffix after `suffix`, wrapping to zero after `u32::MAX`.
pub open spec fn next_suffix(suffix: u32) -> u32 {
    if suffix == u32::MAX {
        0
    } else {
        (suffix + 1) as u32
    }
}

/// Per-thread state of the fast span id generator: a random prefix fixed at
/// creation and a suffix that counts up.
#[derive(Clone, Copy, Debug)]
pub struct IdGenerator {
    pub prefix: u32,
    pub suffix: u32,
}

impl IdGenerator {
    /// A generator with a random prefix and a zero suffix.
    pub fn new() -> (r: IdGenerator)
        ensures
            r.suffix == 0,
    {
        IdGenerator { prefix: rand::random(), suffix: 0 }
    }

    /// A generator with the given prefix and suffix.
    pub fn with_state(prefix: u32, suffix: u32) -> (r: IdGenerator)
        ensures
            r.prefix == prefix,
            r.suffix == suffix,
    {
        IdGenerator { prefix, suffix }
    }

    /// Advances the suffix (wrapping) and returns `(prefix << 32) | suffix`.
    pub fn next_id(&mut self) -> (r: SpanId)
        ensures
            final(self).prefix == old(self).prefix,
            final(self).suffix == next_suffix(old(self).suffix),
            r.0 == compose_id(final(self).prefix, final(self).suffix),
    {
        let suffix = self.suffix.wrapping_add(1);
        self.suffix = suffix;
        let hi: u64 = self.prefix as u64;
        let lo: u64 = suffix as u64;
        assert(hi * 0x1_0000_0000 + lo <= u64::MAX) by (nonlinear_arith)
            requires
                hi <= u32::MAX,
                lo <= u32::MAX,
        ;
        SpanId(hi * 0x1_0000_0000 + lo)
    }
}

/// Distinct (prefix, suffix) pairs give distinct span ids: two generators with
/// different prefixes never collide, and one generator does not repeat itself
/// before its suffix wraps.
pub proof fn lemma_compose_id_injective(prefix_a: u32, suffix_a: u32, prefix_b: u32, suffix_b: u32)
    requires
        prefix_a != prefix_b || suffix_a != suffix_b,
    ensures
        compose_id(prefix_a, suffix_a) != compose_id(prefix_b, suffix_b),
{
    assert(prefix_a as int * 0x1_0000_0000 + suffix_a as int <= u64::MAX) by (nonlinear_arith)
        requires
            prefix_a <= u32::MAX,
            suffix_a <= u32::MAX,
    ;
    assert(prefix_b as int * 0x1_0000_0000 + suffix_b as int <= u64::MAX) by (nonlinear_arith)
        requires
            prefix_b <= u32::MAX,
            suffix_b <= u32::MAX,
    ;
    if prefix_a == prefix_b {
    } else {
        assert(prefix_a as int * 0x1_0000_0000 + suffix_a as int != prefix_b as int * 0x1_0000_0000 + suffix_b as int)
            by (nonlinear_arith)
            requires
                prefix_a != prefix_b,
                suffix_a <= u32::MAX,
                suffix_b <= u32::MAX,
        ;
    }
}


/// The ids that `n` successive calls of `next_id` return, starting from a
/// generator with the given prefix and suffix.
pub open spec fn id_run(prefix: u32, suffix: u32, n: nat) -> Seq<u64> {
    Seq::new(n, |i: int| compose_id(prefix, ((suffix as int + i + 1) % 0x1_0000_0000) as u32))
}

/// Ids from fast generators never collide: one generator yields `n` distinct
/// ids for any `n` up to 2^32, and generators with different prefixes share
/// no id, however many each yields.
pub proof fn lemma_id_runs_unique(
    prefix_a: u32,
    suffix_a: u32,
    n: nat,
    prefix_b: u32,
    suffix_b: u32,
    m: nat,
)
    requires
        n <= 0x1_0000_0000,
    ensures
        id_run(prefix_a, suffix_a, n).no_duplicates(),
        prefix_a != prefix_b ==> forall|i: int, j: int|
            0 <= i < n && 0 <= j < m ==> #[trigger] id_run(prefix_a, suffix_a, n)[i]
                != #[trigger] id_run(prefix_b, suffix_b, m)[j],
{
    let run = id_run(prefix_a, suffix_a, n);
    assert forall|i: int, j: int| 0 <= i < run.len() && 0 <= j < run.len() && i != j implies run[i]
        != run[j] by {
        let x = suffix_a as int + i + 1;
        let y = suffix_a as int + j + 1;
        assert(x % 0x1_0000_0000 != y % 0x1_0000_0000) by (nonlinear_arith)
            requires
                x != y,
                x - y < 0x1_0000_0000,
                y - x < 0x1_0000_0000,
        ;
        lemma_compose_id_injective(
            prefix_a,
            (x % 0x1_0000_0000) as u32,
            prefix_a,
            (y % 0x1_0000_0000) as u32,
        );
    }
    if prefix_a != prefix_b {
        assert forall|i: int, j: int| 0 <= i < n && 0 <= j < m implies #[trigger] id_run(
            prefix_a,
            suffix_a,
            n,
        )[i] != #[trigger] id_run(prefix_b, suffix_b, m)[j] by {
            lemma_compose_id_injective(
                prefix_a,
                ((suffix_a as int + i + 1) % 0x1_0000_0000) as u32,
                prefix_b,
                ((suffix_b as int + j + 1) % 0x1_0000_0000) as u32,
            );
        }
    }
}

/// One call of `next_id` followed by `n` more gives the same ids as `n + 1`
/// calls from the start: the first id is the one `next_id` returns, and the
/// rest continue from the generator it leaves behind. By induction, `n`
/// successive calls on one generator return exactly `id_run(prefix, suffix, n)`.
pub proof fn lemma_id_run_step(prefix: u32, suffix: u32, n: nat)
    ensures
        id_run(prefix, suffix, n + 1) == seq![compose_id(prefix, next_suffix(suffix))] + id_run(
            prefix,
            next_suffix(suffix),
            n,
        ),
{
    let a = id_run(prefix, suffix, n + 1);
    let b = seq![compose_id(prefix, next_suffix(suffix))] + id_run(prefix, next_suffix(suffix), n);
    assert forall|i: int| 0 <= i < a.len() implies a[i] == b[i] by {
        let t = next_suffix(suffix) as int;
        assert(t == (suffix as int + 1) % 0x1_0000_0000);
        if i > 0 {
            let x = suffix as int;
            assert((t + (i - 1) + 1) % 0x1_0000_0000 == (x + i + 1) % 0x1_0000_0000) by (nonlinear_arith)
                requires
                    t == (x + 1) % 0x1_0000_0000,
                    0 <= x,
                    i > 0,
            ;
        }
    }
    assert(a =~= b);
}

/// Whether `c` separates the fields of a traceparent.
pub open spec fn is_dash(c: char) -> bool {
    c == '-'
}

/// The number of dashes in `s`.
pub open spec fn dash_count(s: Seq<char>) -> nat
    decreases s.len(),
{
    if s.len() == 0 {
        0
    } else {
        dash_count(s.drop_last()) + if is_dash(s.last()) {
            1nat
        } else {
            0nat
        }
    }
}

proof fn lemma_dash_count_prefix(s: Seq<char>, k: int)
    requires
        0 <= k <= s.len(),
        forall|i: int| 0 <= i < s.len() ==> (is_dash(#[trigger] s[i]) <==> (i == 2 || i == 35 || i == 52)),
    ensures
        dash_count(s.subrange(0, k)) == (if k > 2 { 1nat } else { 0nat }) + (if k > 35 { 1nat } else { 0nat })
            + (if k > 52 { 1nat } else { 0nat }),
    decreases k,
{
    if k > 0 {
        lemma_dash_count_prefix(s, k - 1);
        assert(s.subrange(0, k).drop_last() =~= s.subrange(0, k - 1));
        assert(s.subrange(0, k).last() == s[k - 1]);
    }
}

/// A decodable traceparent has its dashes exactly at the three field
/// boundaries, so it has exactly four dash-separated fields: input with any
/// other number of fields decodes to `None`.
pub proof fn lemma_traceparent_fields(s: Seq<char>)
    ensures
        traceparent_decode(s) is Some ==> forall|i: int|
            0 <= i < s.len() ==> (is_dash(#[trigger] s[i]) <==> (i == 2 || i == 35 || i == 52)),
        dash_count(s) != 3 ==> traceparent_decode(s) is None,
{
    if traceparent_decode(s) is Some {
        assert forall|i: int| 0 <= i < s.len() implies (is_dash(#[trigger] s[i]) <==> (i == 2
            || i == 35 || i == 52)) by {
            if 3 <= i < 35 {
                assert(s.subrange(3, 35)[i - 3] == s[i]);
            } else if 36 <= i < 52 {
                assert(s.subrange(36, 52)[i - 36] == s[i]);
            } else if 53 <= i < 55 {
                assert(s.subrange(53, 55)[i - 53] == s[i]);
            }
        }
        lemma_dash_count_prefix(s, s.len() as int);
        assert(s.subrange(0, s.len() as int) =~= s);
    }
}

/// 16 to the power `n`.
pub open spec fn pow16(n: nat) -> nat
    decreases n,
{
    if n == 0 {
        1
    } else {
        16 * pow16((n - 1) as nat)
    }
}

/// Whether `c` is a hexadecimal digit (either case).
pub open spec fn is_hex_digit(c: char) -> bool {
    ('0' <= c && c <= '9') || ('a' <= c && c <= 'f') || ('A' <= c && c <= 'F')
}

/// The value of the hexadecimal digit `c`.
pub open spec fn hex_digit_value(c: char) -> nat {
    if '0' <= c && c <= '9' {
        (c as nat - '0' as nat) as nat
    } else if 'a' <= c && c <= 'f' {
        (c as nat - 'a' as nat + 10) as nat
    } else {
        (c as nat - 'A' as nat + 10) as nat
    }
}

/// Whether every character of `s` is a hexadecimal digit.
pub open spec fn all_hex(s: Seq<char>) -> bool {
    forall|i: int| 0 <= i < s.len() ==> is_hex_digit(#[trigger] s[i])
}

/// The number that the hexadecimal digits `s` spell, most significant first.
pub open spec fn hex_value(s: Seq<char>) -> nat
    decreases s.len(),
{
    if s.len() == 0 {
        0
    } else {
        hex_value(s.drop_last()) * 16 + hex_digit_value(s.last())
    }
}

/// The lower-case hexadecimal digit of `d` (taken modulo 16).
pub open spec fn lower_hex_digit(d: nat) -> char {
    let d = d % 16;
    if d < 10 {
        ('0' as nat + d) as char
    } else {
        ('a' as nat + d - 10) as char
    }
}

/// `v` written in `width` lower-case hexadecimal digits, zero padded.
pub open spec fn hex_of(v: nat, width: nat) -> Seq<char>
    decreases width,
{
    if width == 0 {
        seq![]
    } else {
        hex_of(v / 16, (width - 1) as nat).push(lower_hex_digit(v))
    }
}

/// The traceparent string of a context: `00-{trace:32x}-{span:16x}-{flags:02x}`.
pub open spec fn traceparent_of(ctx: SpanContext) -> Seq<char> {
    seq!['0', '0', '-'] + hex_of(ctx.trace_id.0 as nat, 32) + seq!['-'] + hex_of(
        ctx.span_id.0 as nat,
        16,
    ) + seq!['-'] + hex_of(if ctx.sampled { 1 } else { 0 }, 2)
}

/// Whether `s` has the shape of a version-00 traceparent: four dash-separated
/// fields of 2, 32, 16 and 2 hexadecimal digits, the first being `00`.
pub open spec fn is_traceparent(s: Seq<char>) -> bool {
    &&& s.len() == 55
    &&& s[0] == '0' && s[1] == '0' && s[2] == '-'
    &&& all_hex(s.subrange(3, 35))
    &&& s[35] == '-'
    &&& all_hex(s.subrange(36, 52))
    &&& s[52] == '-'
    &&& all_hex(s.subrange(53, 55))
}

/// The context that a traceparent string holds, or `None` when it is malformed.
pub open spec fn traceparent_decode(s: Seq<char>) -> Option<SpanContext> {
    if is_traceparent(s) {
        Some(
            SpanContext {
                trace_id: TraceId(hex_value(s.subrange(3, 35)) as u128),
                span_id: SpanId(hex_value(s.subrange(36, 52)) as u64),
                sampled: hex_value(s.subrange(53, 55)) % 2 == 1,
            },
        )
    } else {
        None
    }
}

proof fn lemma_pow16_monotone(a: nat, b: nat)
    requires
        a <= b,
    ensures
        pow16(a) <= pow16(b),
    decreases b,
{
    if a < b {
        lemma_pow16_monotone(a, (b - 1) as nat);
    }
}

proof fn lemma_pow16_32()
    ensures
        pow16(32) == 0x1_0000_0000_0000_0000_0000_0000_0000_0000,
        pow16(16) == 0x1_0000_0000_0000_0000,
        pow16(2) == 256,
{
    reveal_with_fuel(pow16, 33);
}

proof fn lemma_hex_value_bound(s: Seq<char>)
    requires
        all_hex(s),
    ensures
        hex_value(s) < pow16(s.len()),
    decreases s.len(),
{
    if s.len() > 0 {
        let t = s.drop_last();
        assert(all_hex(t)) by {
            assert forall|i: int| 0 <= i < t.len() implies is_hex_digit(#[trigger] t[i]) by {
                assert(t[i] == s[i]);
            }
        }
        lemma_hex_value_bound(t);
        assert(is_hex_digit(s[s.len() - 1]));
        let d = hex_digit_value(s.last());
        assert(d < 16);
        let h = hex_value(t);
        assert(h * 16 + d < pow16(t.len()) * 16) by (nonlinear_arith)
            requires
                h < pow16(t.len()),
                d < 16,
        ;
    }
}

proof fn lemma_hex_of_round_trip(v: nat, width: nat)
    requires
        v < pow16(width),
    ensures
        hex_of(v, width).len() == width,
        all_hex(hex_of(v, width)),
        hex_value(hex_of(v, width)) == v,
    decreases width,
{
    if width > 0 {
        let w1 = (width - 1) as nat;
        assert(v / 16 < pow16(w1)) by (nonlinear_arith)
            requires
                v < 16 * pow16(w1),
        ;
        lemma_hex_of_round_trip(v / 16, w1);
        let s = hex_of(v, width);
        let t = hex_of(v / 16, w1);
        assert(s.drop_last() =~= t);
        let d = v % 16;
        assert(is_hex_digit(lower_hex_digit(v)) && hex_digit_value(lower_hex_digit(v)) == d);
        assert forall|i: int| 0 <= i < s.len() implies is_hex_digit(#[trigger] s[i]) by {
            if i < t.len() {
                assert(s[i] == t[i]);
            }
        }
        assert(v == (v / 16) * 16 + v % 16) by (nonlinear_arith);
    } else {
        assert(v == 0);
    }
}

/// Decoding the traceparent string of any context gives that context back.
pub proof fn lemma_traceparent_round_trip(ctx: SpanContext)
    ensures
        traceparent_decode(traceparent_of(ctx)) == Some(ctx),
{
    lemma_pow16_32();
    let t = ctx.trace_id.0 as nat;
    let p = ctx.span_id.0 as nat;
    let f: nat = if ctx.sampled { 1 } else { 0 };
    lemma_hex_of_round_trip(t, 32);
    lemma_hex_of_round_trip(p, 16);
    lemma_hex_of_round_trip(f, 2);
    let s = traceparent_of(ctx);
    assert(s.subrange(3, 35) =~= hex_of(t, 32));
    assert(s.subrange(36, 52) =~= hex_of(p, 16));
    assert(s.subrange(53, 55) =~= hex_of(f, 2));
    assert(s.len() == 55);
    assert(s[0] == '0' && s[1] == '0' && s[2] == '-' && s[35] == '-' && s[52] == '-');
}

/// The lower-case hexadecimal digit of `d`.
fn hex_digit_char(d: u8) -> (c: char)
    requires
        d < 16,
    ensures
        c == lower_hex_digit(d as nat),
{
    match d {
        0 => '0',
        1 => '1',
        2 => '2',
        3 => '3',
        4 => '4',
        5 => '5',
        6 => '6',
        7 => '7',
        8 => '8',
        9 => '9',
        10 => 'a',
        11 => 'b',
        12 => 'c',
        13 => 'd',
        14 => 'e',
        _ => 'f',
    }
}

/// Appends `v` to `out` as `width` lower-case hexadecimal digits.
fn push_hex(out: &mut Vec<char>, v: u128, width: usize)
    ensures
        final(out)@ == old(out)@ + hex_of(v as nat, width as nat),
    decreases width,
{
    if width > 0 {
        push_hex(out, v / 16, width - 1);
        out.push(hex_digit_char((v % 16) as u8));
        assert(out@ =~= old(out)@ + hex_of(v as nat, width as nat));
    } else {
        assert(out@ =~= old(out)@ + hex_of(v as nat, width as nat));
    }
}

/// Relies on `String`'s `FromIterator<char>`: the string holds exactly the given characters.
#[verifier::external_body]
fn string_from_chars(chars: &Vec<char>) -> (r: String)
    ensures
        r@ == chars@,
{
    chars.iter().collect()
}

/// The value of the hexadecimal digit byte `b`, or `None` if it is not one.
fn hex_byte_value(b: u8) -> (r: Option<u8>)
    ensures
        r == (if is_hex_digit(b as char) {
            Some(hex_digit_value(b as char) as u8)
        } else {
            None::<u8>
        }),
{
    if b >= 48 && b <= 57 {
        Some(b - 48)
    } else if b >= 97 && b <= 102 {
        Some(b - 87)
    } else if b >= 65 && b <= 70 {
        Some(b - 55)
    } else {
        None
    }
}

/// Parses the `width` hexadecimal digits of `s` that start at `start`.
fn parse_hex(s: &[u8], start: usize, width: usize) -> (r: Option<u128>)
    requires
        start + width <= s@.len(),
        width <= 32,
    ensures
        ({
            let chars = s@.subrange(start as int, start + width).map_values(|b: u8| b as char);
            r == (if all_hex(chars) {
                Some(hex_value(chars) as u128)
            } else {
                None::<u128>
            })
        }),
{
    let ghost chars = s@.subrange(start as int, start + width).map_values(|b: u8| b as char);
    let mut acc: u128 = 0;
    let mut i: usize = 0;
    let n = s.len();
    proof {
        lemma_pow16_32();
        lemma_pow16_monotone(width as nat, 32);
    }
    while i < width
        invariant
            i <= width,
            start + width <= s@.len(),
            s@.len() == n,
            width <= 32,
            pow16(width as nat) <= pow16(32),
            pow16(32) == 0x1_0000_0000_0000_0000_0000_0000_0000_0000,
            chars == s@.subrange(start as int, start + width).map_values(|b: u8| b as char),
            all_hex(chars.subrange(0, i as int)),
            acc as nat == hex_value(chars.subrange(0, i as int)),
        decreases width - i,
    {
        let b = s[start + i];
        assert(chars[i as int] == b as char);
        match hex_byte_value(b) {
            None => {
                assert(!is_hex_digit(chars[i as int]));
                return None;
            },
            Some(d) => {
                let ghost prefix = chars.subrange(0, i as int);
                let ghost next = chars.subrange(0, i + 1);
                assert(next.drop_last() =~= prefix);
                proof {
                    lemma_hex_value_bound(next.drop_last());
                    lemma_pow16_monotone((i + 1) as nat, width as nat);
                    assert(acc * 16 + d < pow16(i as nat) * 16) by (nonlinear_arith)
                        requires
                            acc < pow16(i as nat),
                            d < 16,
                    ;
                    assert forall|j: int| 0 <= j < next.len() implies is_hex_digit(
                        #[trigger] next[j],
                    ) by {
                        if j < i {
                            assert(next[j] == prefix[j]);
                        }
                    }
                }
                acc = acc * 16 + d as u128;
                i = i + 1;
            },
        }
    }
    assert(chars.subrange(0, width as int) =~= chars);
    Some(acc)
}

impl SpanContext {
    /// A sampled context with the given ids.
    pub fn new(trace_id: TraceId, span_id: SpanId) -> (r: SpanContext)
        ensures
            r == (SpanContext { trace_id, span_id, sampled: true }),
    {
        SpanContext { trace_id, span_id, sampled: true }
    }

    /// A sampled context with a random trace id and the span id zero.
    pub fn random() -> (r: SpanContext)
        ensures
            r.span_id == SpanId(0),
            r.sampled,
    {
        SpanContext { trace_id: TraceId::random(), span_id: SpanId(0), sampled: true }
    }

    /// The same context with the `sampled` flag set to `sampled`.
    pub fn sampled(self, sampled: bool) -> (r: SpanContext)
        ensures
            r == (SpanContext { sampled, ..self }),
    {
        SpanContext { sampled, ..self }
    }

    /// Decodes a W3C `traceparent` header; `None` when it is malformed.
    pub fn decode_w3c_traceparent(traceparent: &str) -> (r: Option<SpanContext>)
        ensures
            r == traceparent_decode(traceparent@),
    {
        let ghost cs = traceparent@;
        if !traceparent.is_ascii() {
            proof {
                if is_traceparent(cs) {
                    assert forall|i: int| 0 <= i < cs.len() implies '\0' <= #[trigger] cs[i]
                        <= '\u{7f}' by {
                        if 3 <= i < 35 {
                            assert(cs.subrange(3, 35)[i - 3] == cs[i]);
                        } else if 36 <= i < 52 {
                            assert(cs.subrange(36, 52)[i - 36] == cs[i]);
                        } else if 53 <= i < 55 {
                            assert(cs.subrange(53, 55)[i - 53] == cs[i]);
                        }
                    }
                }
            }
            return None;
        }
        let bytes = traceparent.as_bytes();
        proof {
            vstd::string::is_ascii_spec_bytes(traceparent);
            assert(bytes@.map_values(|b: u8| b as char) =~= cs);
        }
        if bytes.len() != 55 || bytes[0] != 48 || bytes[1] != 48 || bytes[2] != 45 || bytes[35]
            != 45 || bytes[52] != 45 {
            return None;
        }
        let ghost m = bytes@.map_values(|b: u8| b as char);
        assert(m.subrange(3, 35) =~= bytes@.subrange(3, 35).map_values(|b: u8| b as char));
        assert(m.subrange(36, 52) =~= bytes@.subrange(36, 52).map_values(|b: u8| b as char));
        assert(m.subrange(53, 55) =~= bytes@.subrange(53, 55).map_values(|b: u8| b as char));
        let trace_id = match parse_hex(bytes, 3, 32) {
            Some(v) => v,
            None => {
                return None;
            },
        };
        let span_id = match parse_hex(bytes, 36, 16) {
            Some(v) => v,
            None => {
                return None;
            },
        };
        let flags = match parse_hex(bytes, 53, 2) {
            Some(v) => v,
            None => {
                return None;
            },
        };
        proof {
            lemma_pow16_32();
            assert(m == cs);
            assert(cs[0] == '0' && cs[1] == '0' && cs[2] == '-');
            assert(cs[35] == '-' && cs[52] == '-');
            assert(is_traceparent(cs));
            lemma_hex_value_bound(m.subrange(36, 52));
            lemma_hex_value_bound(m.subrange(53, 55));
        }
        Some(SpanContext::new(TraceId(trace_id), SpanId(span_id as u64)).sampled(flags % 2 == 1))
    }

    /// Encodes the context as a W3C `traceparent` header.
    pub fn encode_w3c_traceparent(&self) -> (r: String)
        ensures
            r@ == traceparent_of(*self),
    {
        let mut out: Vec<char> = Vec::new();
        out.push('0');
        out.push('0');
        out.push('-');
        push_hex(&mut out, self.trace_id.0, 32);
        out.push('-');
        push_hex(&mut out, self.span_id.0 as u128, 16);
        out.push('-');
        push_hex(&mut out, if self.sampled { 1 } else { 0 }, 2);
        assert(out@ =~= traceparent_of(*self));
        string_from_chars(&out)
    }

    /// Encodes the context with the given `sampled` flag in place of its own.
    pub fn encode_w3c_traceparent_with_sampled(&self, sampled: bool) -> (r: String)
        ensures
            r@ == traceparent_of(SpanContext { sampled, ..*self }),
    {
        self.sampled(sampled).encode_w3c_traceparent()
    }
}

} // verus!
