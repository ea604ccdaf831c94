//! Broker addresses: validated `host[:port]` endpoints of the cluster.

use vstd::prelude::*;
use vstd::string::StrSliceExecFns;
use vstd::string::StringExecFns;

use crate::errors::AddressFault;
use crate::errors::ClientError;

verus! {

/// The port assumed when a connection string carries none.
pub const DEFAULT_PORT: u16 = 9092;

/// A validated `host:port` endpoint of the cluster.
///
/// The hostname of a parsed address is never empty; the port defaults to
/// 9092 when the connection string carries none. Values are immutable once
/// constructed.
#[derive(Clone, Debug, PartialEq, Eq)]
pub struct Broker {
    hostname: String,
    port: u16,
}

/// The mathematical content of a [`Broker`]: its hostname characters and port.
pub struct BrokerView {
    pub hostname: Seq<char>,
    pub port: u16,
}

impl View for Broker {
    type V = BrokerView;

    closed spec fn view(&self) -> BrokerView {
        BrokerView { hostname: self.hostname@, port: self.port }
    }
}

/// Is `c` a decimal digit?
pub open spec fn is_dec_digit(c: char) -> bool {
    '0' as u32 <= c as u32 && c as u32 <= '9' as u32
}

/// The numeric value of the digit `c`.
pub open spec fn digit_val(c: char) -> int {
    c as u32 - '0' as u32
}

/// The digit character for a value in `0..10`.
pub open spec fn dec_digit(d: int) -> char {
    if d == 0 {
        '0'
    } else if d == 1 {
        '1'
    } else if d == 2 {
        '2'
    } else if d == 3 {
        '3'
    } else if d == 4 {
        '4'
    } else if d == 5 {
        '5'
    } else if d == 6 {
        '6'
    } else if d == 7 {
        '7'
    } else if d == 8 {
        '8'
    } else {
        '9'
    }
}

/// Every character of `s` is a decimal digit.
pub open spec fn all_digits(s: Seq<char>) -> bool {
    forall|i: int| 0 <= i < s.len() ==> is_dec_digit(#[trigger] s[i])
}

/// The number denoted by the digit string `s`, most significant digit first.
pub open spec fn seq_val(s: Seq<char>) -> int
    decreases s.len(),
{
    if s.len() == 0 {
        0
    } else {
        seq_val(s.drop_last()) * 10 + digit_val(s.last())
    }
}

/// The canonical decimal rendering of `n`: no sign, no leading zeros.
pub open spec fn dec_rep(n: nat) -> Seq<char>
    decreases n,
{
    if n < 10 {
        seq![dec_digit(n as int)]
    } else {
        dec_rep(n / 10).push(dec_digit((n % 10) as int))
    }
}

/// A non-empty digit string denoting a number that fits in 16 bits.
pub open spec fn valid_port_digits(s: Seq<char>) -> bool {
    s.len() > 0 && all_digits(s) && seq_val(s) <= 65535
}

/// The index of the last `:` in `s`, or `-1` when `s` has none.
pub open spec fn last_colon(s: Seq<char>) -> int
    decreases s.len(),
{
    if s.len() == 0 {
        -1
    } else if s.last() == ':' {
        s.len() - 1
    } else {
        last_colon(s.drop_last())
    }
}

/// What parsing a connection string yields: the segment before the last `:`
/// must be non-empty, the optional segment after it must be an unsigned
/// 16-bit decimal number, and an absent port segment defaults to 9092.
pub open spec fn spec_parse_broker(s: Seq<char>) -> Result<BrokerView, AddressFault> {
    let k = last_colon(s);
    if k == -1 {
        if s.len() > 0 {
            Ok(BrokerView { hostname: s, port: DEFAULT_PORT })
        } else {
            Err(AddressFault::NoHostname)
        }
    } else if k == 0 {
        Err(AddressFault::NoHostname)
    } else {
        let ps = s.subrange(k + 1, s.len() as int);
        if valid_port_digits(ps) {
            Ok(BrokerView { hostname: s.subrange(0, k), port: seq_val(ps) as u16 })
        } else {
            Err(AddressFault::BadPort)
        }
    }
}

/// What formatting a broker yields: `hostname`, `:`, then the canonical
/// decimal digits of the port.
pub open spec fn spec_format_broker(b: BrokerView) -> Seq<char> {
    b.hostname + seq![':'] + dec_rep(b.port as nat)
}

pub proof fn lemma_dec_digit_props(d: int)
    requires
        0 <= d < 10,
    ensures
        is_dec_digit(dec_digit(d)),
        digit_val(dec_digit(d)) == d,
        dec_digit(d) != ':',
{
}

pub proof fn lemma_seq_val_nonneg(s: Seq<char>)
    requires
        all_digits(s),
    ensures
        seq_val(s) >= 0,
    decreases s.len(),
{
    if s.len() > 0 {
        assert forall|i: int| 0 <= i < s.drop_last().len() implies is_dec_digit(
            #[trigger] s.drop_last()[i],
        ) by {
            assert(s.drop_last()[i] == s[i]);
        }
        lemma_seq_val_nonneg(s.drop_last());
        assert(is_dec_digit(s.last()));
    }
}

pub proof fn lemma_seq_val_push(s: Seq<char>, c: char)
    ensures
        seq_val(s.push(c)) == seq_val(s) * 10 + digit_val(c),
{
    assert(s.push(c).drop_last() =~= s);
    assert(s.push(c).last() == c);
}

pub proof fn lemma_seq_val_prefix_step(s: Seq<char>, i: int)
    requires
        0 <= i < s.len(),
    ensures
        seq_val(s.subrange(0, i + 1)) == seq_val(s.subrange(0, i)) * 10 + digit_val(s[i]),
{
    assert(s.subrange(0, i + 1) =~= s.subrange(0, i).push(s[i]));
    lemma_seq_val_push(s.subrange(0, i), s[i]);
}

pub proof fn lemma_seq_val_prefix_le(s: Seq<char>, i: int)
    requires
        all_digits(s),
        0 <= i <= s.len(),
    ensures
        seq_val(s.subrange(0, i)) <= seq_val(s),
    decreases s.len() - i,
{
    if i == s.len() {
        assert(s.subrange(0, i) =~= s);
    } else {
        assert forall|j: int| 0 <= j < s.subrange(0, i).len() implies is_dec_digit(
            #[trigger] s.subrange(0, i)[j],
        ) by {
            assert(s.subrange(0, i)[j] == s[j]);
        }
        lemma_seq_val_nonneg(s.subrange(0, i));
        lemma_seq_val_prefix_step(s, i);
        assert(is_dec_digit(s[i]));
        lemma_seq_val_prefix_le(s, i + 1);
    }
}

pub proof fn lemma_dec_rep_props(n: nat)
    ensures
        dec_rep(n).len() >= 1,
        all_digits(dec_rep(n)),
        seq_val(dec_rep(n)) == n,
        forall|i: int| 0 <= i < dec_rep(n).len() ==> #[trigger] dec_rep(n)[i] != ':',
    decreases n,
{
    if n < 10 {
        lemma_dec_digit_props(n as int);
        assert(dec_rep(n) == seq![dec_digit(n as int)]);
        assert(dec_rep(n).drop_last() =~= Seq::<char>::empty());
        assert(seq_val(Seq::<char>::empty()) == 0);
        assert(dec_rep(n).last() == dec_digit(n as int));
        assert(seq_val(dec_rep(n)) == seq_val(dec_rep(n).drop_last()) * 10 + digit_val(
            dec_rep(n).last(),
        ));
        assert(seq_val(dec_rep(n)) == n);
    } else {
        lemma_dec_rep_props(n / 10);
        lemma_dec_digit_props((n % 10) as int);
        lemma_seq_val_push(dec_rep(n / 10), dec_digit((n % 10) as int));
        vstd::arithmetic::div_mod::lemma_fundamental_div_mod(n as int, 10);
        assert forall|i: int| 0 <= i < dec_rep(n).len() implies is_dec_digit(
            #[trigger] dec_rep(n)[i],
        ) by {
            if i < dec_rep(n / 10).len() {
                assert(dec_rep(n)[i] == dec_rep(n / 10)[i]);
            }
        }
        assert forall|i: int| 0 <= i < dec_rep(n).len() implies #[trigger] dec_rep(n)[i]
            != ':' by {
            if i < dec_rep(n / 10).len() {
                assert(dec_rep(n)[i] == dec_rep(n / 10)[i]);
            }
        }
    }
}

pub proof fn lemma_last_colon_none(s: Seq<char>)
    requires
        forall|i: int| 0 <= i < s.len() ==> #[trigger] s[i] != ':',
    ensures
        last_colon(s) == -1,
    decreases s.len(),
{
    if s.len() > 0 {
        assert(s.last() == s[s.len() - 1]);
        assert forall|i: int| 0 <= i < s.drop_last().len() implies #[trigger] s.drop_last()[i]
            != ':' by {
            assert(s.drop_last()[i] == s[i]);
        }
        lemma_last_colon_none(s.drop_last());
    }
}

pub proof fn lemma_last_colon_at(s: Seq<char>, k: int)
    requires
        0 <= k < s.len(),
        s[k] == ':',
        forall|i: int| k < i < s.len() ==> #[trigger] s[i] != ':',
    ensures
        last_colon(s) == k,
    decreases s.len(),
{
    if k == s.len() - 1 {
        assert(s.last() == s[k]);
    } else {
        assert(s.last() == s[s.len() - 1]);
        assert(s.last() != ':');
        assert(s.drop_last()[k] == s[k]);
        assert forall|i: int| k < i < s.drop_last().len() implies #[trigger] s.drop_last()[i]
            != ':' by {
            assert(s.drop_last()[i] == s[i]);
        }
        lemma_last_colon_at(s.drop_last(), k);
    }
}

pub proof fn lemma_last_colon_props(s: Seq<char>)
    ensures
        last_colon(s) >= 0 ==> last_colon(s) < s.len() && s[last_colon(s)] == ':',
        last_colon(s) >= 0 ==> forall|i: int|
            last_colon(s) < i < s.len() ==> #[trigger] s[i] != ':',
        last_colon(s) == -1 ==> forall|i: int| 0 <= i < s.len() ==> #[trigger] s[i] != ':',
    decreases s.len(),
{
    if s.len() > 0 {
        lemma_last_colon_props(s.drop_last());
        if s.last() == ':' {
            assert(s[s.len() - 1] == ':');
        } else {
            assert forall|i: int|
                last_colon(s) < i < s.len() && last_colon(s) >= 0 implies #[trigger] s[i]
                != ':' by {
                if i < s.len() - 1 {
                    assert(s.drop_last()[i] == s[i]);
                } else {
                    assert(s[i] == s.last());
                }
            }
            assert forall|i: int|
                0 <= i < s.len() && last_colon(s) == -1 implies #[trigger] s[i] != ':' by {
                if i < s.len() - 1 {
                    assert(s.drop_last()[i] == s[i]);
                } else {
                    assert(s[i] == s.last());
                }
            }
        }
    }
}

/// Law: parsing a formatted address yields exactly the address back, for
/// every address with a non-empty hostname.
pub proof fn lemma_parse_of_format(b: BrokerView)
    requires
        b.hostname.len() > 0,
    ensures
        spec_parse_broker(spec_format_broker(b)) == Ok::<BrokerView, AddressFault>(b),
{
    let s = spec_format_broker(b);
    let h = b.hostname;
    let d = dec_rep(b.port as nat);
    lemma_dec_rep_props(b.port as nat);
    assert(s.len() == h.len() + 1 + d.len());
    assert(s[h.len() as int] == ':');
    assert forall|i: int| h.len() < i < s.len() implies #[trigger] s[i] != ':' by {
        assert(s[i] == d[i - h.len() - 1]);
    }
    lemma_last_colon_at(s, h.len() as int);
    let ps = s.subrange(h.len() as int + 1, s.len() as int);
    assert(ps =~= d);
    assert(s.subrange(0, h.len() as int) =~= h);
    assert(seq_val(ps) == b.port as int);
    assert(spec_parse_broker(s) == Ok::<BrokerView, AddressFault>(
        BrokerView { hostname: h, port: b.port },
    ));
}

/// Law: a canonical `host:port` string (port written without sign or leading
/// zeros) is reproduced exactly by formatting its parse.
pub proof fn lemma_format_of_parse(s: Seq<char>, b: BrokerView)
    requires
        spec_parse_broker(s) == Ok::<BrokerView, AddressFault>(b),
        last_colon(s) >= 0,
        s.subrange(last_colon(s) + 1, s.len() as int) == dec_rep(b.port as nat),
    ensures
        spec_format_broker(b) == s,
{
    let k = last_colon(s);
    lemma_last_colon_props(s);
    assert(k >= 1);
    assert(b.hostname == s.subrange(0, k));
    assert(s =~= s.subrange(0, k) + seq![s[k]] + s.subrange(k + 1, s.len() as int));
    assert(spec_format_broker(b) =~= s);
}

/// Law: a non-empty string without any `:` parses as a hostname with the
/// default port 9092.
pub proof fn lemma_parse_plain_host(s: Seq<char>)
    requires
        s.len() > 0,
        forall|i: int| 0 <= i < s.len() ==> #[trigger] s[i] != ':',
    ensures
        spec_parse_broker(s) == Ok::<BrokerView, AddressFault>(
            BrokerView { hostname: s, port: DEFAULT_PORT },
        ),
{
    lemma_last_colon_none(s);
}

/// Relies on `String::push`: appends the character to the end of the string.
#[verifier::external_body]
fn push_char(s: &mut String, c: char)
    ensures
        final(s)@ == old(s)@.push(c),
{
    s.push(c);
}

/// The digit character for `d`.
fn digit_char(d: u16) -> (c: char)
    requires
        d < 10,
    ensures
        c == dec_digit(d as int),
{
    match d {
        0 => '0',
        1 => '1',
        2 => '2',
        3 => '3',
        4 => '4',
        5 => '5',
        6 => '6',
        7 => '7',
        8 => '8',
        _ => '9',
    }
}

/// Renders `n` as canonical decimal digits.
fn u16_to_dec(n: u16) -> (r: String)
    ensures
        r@ == dec_rep(n as nat),
    decreases n,
{
    if n < 10 {
        let mut s = String::new();
        push_char(&mut s, digit_char(n));
        proof {
            assert(s@ =~= seq![dec_digit(n as int)]);
        }
        s
    } else {
        let mut s = u16_to_dec(n / 10);
        push_char(&mut s, digit_char(n % 10));
        proof {
            assert(s@ =~= dec_rep(n as nat));
        }
        s
    }
}

/// Parses a non-empty all-digit string as an unsigned 16-bit number.
fn parse_u16_digits(t: &str) -> (r: Option<u16>)
    ensures
        (match r {
            Some(v) => valid_port_digits(t@) && v as int == seq_val(t@),
            None => !valid_port_digits(t@),
        }),
{
    let n = t.unicode_len();
    if n == 0 {
        return None;
    }
    let mut acc: u32 = 0;
    let mut i: usize = 0;
    while i < n
        invariant
            0 <= i <= n,
            n == t@.len(),
            all_digits(t@.subrange(0, i as int)),
            acc as int == seq_val(t@.subrange(0, i as int)),
            acc <= 65535,
        decreases n - i,
    {
        let c = t.get_char(i);
        let u = c as u32;
        if u < 48 || u > 57 {
            proof {
                assert(!is_dec_digit(t@[i as int]));
            }
            return None;
        }
        proof {
            lemma_seq_val_prefix_step(t@, i as int);
        }
        let acc2: u32 = acc * 10 + (u - 48);
        if acc2 > 65535 {
            proof {
                if all_digits(t@) {
                    lemma_seq_val_prefix_le(t@, i + 1);
                }
            }
            return None;
        }
        acc = acc2;
        i += 1;
        proof {
            assert forall|j: int| 0 <= j < i implies is_dec_digit(
                #[trigger] t@.subrange(0, i as int)[j],
            ) by {
                assert(t@.subrange(0, i as int)[j] == t@[j]);
                if j < i - 1 {
                    assert(t@.subrange(0, i as int - 1)[j] == t@[j]);
                }
            }
        }
    }
    proof {
        assert(t@.subrange(0, n as int) =~= t@);
    }
    Some(acc as u16)
}

impl Broker {
    /// A broker at the given hostname and port.
    pub fn new(hostname: String, port: u16) -> (b: Broker)
        ensures
            b@.hostname == hostname@,
            b@.port == port,
    {
        Broker { hostname, port }
    }

    /// The hostname of the endpoint.
    pub fn hostname(&self) -> (h: &String)
        ensures
            h@ == self@.hostname,
    {
        &self.hostname
    }

    /// The port of the endpoint.
    pub fn port(&self) -> (p: u16)
        ensures
            p == self@.port,
    {
        self.port
    }

    /// Renders the address as `hostname:port`.
    pub fn to_connection_string(self) -> (r: String)
        ensures
            r@ == spec_format_broker(self@),
    {
        let ghost v = self@;
        let Broker { hostname, port } = self;
        let mut out = hostname;
        push_char(&mut out, ':');
        let digits = u16_to_dec(port);
        out.append(digits.as_str());
        proof {
            assert(out@ =~= spec_format_broker(v));
        }
        out
    }

    /// Parses a `host[:port]` connection string: the segment before the last
    /// `:` is the hostname and must be non-empty; the segment after it must
    /// be an unsigned 16-bit decimal number; without a `:`, the whole string
    /// is the hostname and the port defaults to 9092.
    pub fn from_connection_string(s: String) -> (r: Result<Broker, ClientError>)
        ensures
            (match spec_parse_broker(s@) {
                Ok(bv) => r matches Ok(b) && b@ == bv,
                Err(f) => r matches Err(e) && e == ClientError::InvalidAddress(f),
            }),
    {
        let sl = s.as_str();
        let n = sl.unicode_len();
        let mut i: usize = n;
        let mut colon: usize = 0;
        let mut found = false;
        while i > 0 && !found
            invariant
                0 <= i <= n,
                n == s@.len(),
                sl@ == s@,
                !found ==> forall|j: int| i <= j < n ==> s@[j] != ':',
                found ==> i == colon && colon < n && s@[colon as int] == ':',
                found ==> forall|j: int| colon < j < n ==> s@[j] != ':',
            decreases i,
        {
            i -= 1;
            if sl.get_char(i) == ':' {
                found = true;
                colon = i;
            }
        }
        if !found {
            proof {
                lemma_last_colon_none(s@);
            }
            if n == 0 {
                return Err(ClientError::InvalidAddress(AddressFault::NoHostname));
            }
            return Ok(Broker { hostname: s, port: DEFAULT_PORT });
        }
        proof {
            lemma_last_colon_at(s@, colon as int);
        }
        if colon == 0 {
            return Err(ClientError::InvalidAddress(AddressFault::NoHostname));
        }
        let host = sl.substring_char(0, colon);
        let ps = sl.substring_char(colon + 1, n);
        match parse_u16_digits(ps) {
            Some(p) => {
                let hostname = String::from_str(host);
                Ok(Broker { hostname, port: p })
            },
            None => Err(ClientError::InvalidAddress(AddressFault::BadPort)),
        }
    }
}

impl Default for Broker {
    /// An unnamed endpoint at the default port 9092.
    fn default() -> (b: Broker)
        ensures
            b@.hostname == Seq::<char>::empty(),
            b@.port == DEFAULT_PORT,
    {
        Broker { hostname: String::new(), port: DEFAULT_PORT }
    }
}

/// Splitting on commas, character by character: `acc` is the piece read so
/// far.
pub open spec fn split_commas_from(s: Seq<char>, acc: Seq<char>) -> Seq<Seq<char>>
    decreases s.len(),
{
    if s.len() == 0 {
        seq![acc]
    } else if s[0] == ',' {
        seq![acc] + split_commas_from(s.drop_first(), Seq::empty())
    } else {
        split_commas_from(s.drop_first(), acc.push(s[0]))
    }
}

/// The pieces of `s` between its commas; empty pieces are kept.
pub open spec fn spec_split_commas(s: Seq<char>) -> Seq<Seq<char>> {
    split_commas_from(s, Seq::empty())
}

/// The views of a list of strings.
pub open spec fn str_views(v: Seq<String>) -> Seq<Seq<char>> {
    v.map_values(|x: String| x@)
}

/// Splits a string on every comma, keeping empty pieces.
pub fn split_commas(s: &str) -> (r: Vec<String>)
    ensures
        str_views(r@) == spec_split_commas(s@),
{
    let n = s.unicode_len();
    let mut out: Vec<String> = Vec::new();
    let mut cur = String::new();
    let mut i: usize = 0;
    proof {
        assert(s@.subrange(0, n as int) =~= s@);
        assert(str_views(out@) =~= Seq::<Seq<char>>::empty());
        assert(str_views(out@) + split_commas_from(s@.subrange(0, n as int), cur@)
            =~= spec_split_commas(s@));
    }
    while i < n
        invariant
            n == s@.len(),
            0 <= i <= n,
            str_views(out@) + split_commas_from(s@.subrange(i as int, n as int), cur@)
                == spec_split_commas(s@),
        decreases n - i,
    {
        let ghost rem = s@.subrange(i as int, n as int);
        let c = s.get_char(i);
        proof {
            assert(rem[0] == s@[i as int]);
            assert(rem.drop_first() =~= s@.subrange(i as int + 1, n as int));
        }
        if c == ',' {
            let ghost preout = out@;
            let ghost precur = cur@;
            let mut piece = String::new();
            core::mem::swap(&mut piece, &mut cur);
            out.push(piece);
            proof {
                assert forall|x: int|
                    0 <= x < out@.len() implies #[trigger] str_views(out@)[x] == str_views(
                    preout,
                ).push(precur)[x] by {
                    if x < preout.len() {
                        assert(out@[x] == preout[x]);
                        assert(str_views(preout)[x] == preout[x]@);
                    }
                }
                assert(str_views(out@) =~= str_views(preout).push(precur));
                assert(split_commas_from(rem, precur) == seq![precur] + split_commas_from(
                    rem.drop_first(),
                    Seq::empty(),
                ));
                assert(str_views(out@) + split_commas_from(
                    s@.subrange(i as int + 1, n as int),
                    cur@,
                ) =~= str_views(preout) + split_commas_from(rem, precur));
            }
        } else {
            let ghost precur = cur@;
            push_char(&mut cur, c);
            proof {
                assert(cur@ == precur.push(s@[i as int]));
                assert(split_commas_from(rem, precur) == split_commas_from(
                    rem.drop_first(),
                    precur.push(rem[0]),
                ));
            }
        }
        i += 1;
    }
    proof {
        assert(s@.subrange(n as int, n as int) =~= Seq::<char>::empty());
        assert(split_commas_from(Seq::<char>::empty(), cur@) == seq![cur@]);
    }
    let ghost preout = out@;
    let ghost precur = cur@;
    out.push(cur);
    proof {
        assert forall|x: int|
            0 <= x < out@.len() implies #[trigger] str_views(out@)[x] == str_views(preout).push(
            precur,
        )[x] by {
            if x < preout.len() {
                assert(out@[x] == preout[x]);
                assert(str_views(preout)[x] == preout[x]@);
            }
        }
        assert(str_views(out@) =~= str_views(preout).push(precur));
        assert(str_views(preout).push(precur) =~= str_views(preout) + seq![precur]);
        assert(str_views(out@) =~= spec_split_commas(s@));
    }
    out
}

/// The first entry of `parts` that does not parse decides the error `e`.
pub open spec fn broker_list_error(parts: Seq<Seq<char>>, e: ClientError) -> bool {
    exists|i: int|
        0 <= i < parts.len() && ((#[trigger] spec_parse_broker(parts[i])) matches Err(f) && e
            == ClientError::InvalidAddress(f)) && (forall|j: int|
            0 <= j < i ==> spec_parse_broker(parts[j]) is Ok)
}

/// Parses a comma-delimited list of broker connection strings, an unordered
/// set of equally eligible bootstrap endpoints. The first malformed entry
/// decides the error.
pub fn parse_broker_list(s: &str) -> (r: Result<Vec<Broker>, ClientError>)
    ensures
        (match r {
            Ok(bs) => bs@.len() == spec_split_commas(s@).len() && forall|i: int|
                0 <= i < bs@.len() ==> spec_parse_broker(spec_split_commas(s@)[i]) == Ok::<
                    BrokerView,
                    AddressFault,
                >((#[trigger] bs@[i])@),
            Err(e) => broker_list_error(spec_split_commas(s@), e),
        }),
{
    let parts = split_commas(s);
    let ghost pv = spec_split_commas(s@);
    let mut bs: Vec<Broker> = Vec::new();
    let mut i: usize = 0;
    while i < parts.len()
        invariant
            pv == spec_split_commas(s@),
            str_views(parts@) == pv,
            0 <= i <= parts@.len(),
            bs@.len() == i,
            forall|j: int|
                0 <= j < i ==> spec_parse_broker(pv[j]) == Ok::<BrokerView, AddressFault>(
                    (#[trigger] bs@[j])@,
                ),
        decreases parts@.len() - i,
    {
        proof {
            assert(str_views(parts@)[i as int] == parts@[i as int]@);
        }
        match Broker::from_connection_string(parts[i].clone()) {
            Ok(b) => {
                bs.push(b);
            },
            Err(e) => {
                proof {
                    let pi = i as int;
                    assert(spec_parse_broker(pv[pi]) is Err);
                    assert forall|j: int| 0 <= j < pi implies spec_parse_broker(pv[j]) is Ok by {
                        assert(spec_parse_broker(pv[j]) == Ok::<BrokerView, AddressFault>(
                            bs@[j]@,
                        ));
                    }
                    assert(broker_list_error(pv, e));
                }
                return Err(e);
            },
        }
        i += 1;
    }
    Ok(bs)
}

} // verus!
