use vstd::prelude::*;

verus! {

/// Port used when none (or no valid one) is configured.
pub const DEFAULT_PORT: u16 = 3000;

/// Where the sessions are stored and on which port the service listens.
pub struct Config {
    pub database_url: String,
    pub port: u16,
}

pub open spec fn is_digit(c: char) -> bool {
    '0' <= c && c <= '9'
}

/// The number that a sequence of decimal digits spells.
pub open spec fn digits_value(d: Seq<char>) -> int
    decreases d.len(),
{
    if d.len() == 0 {
        0
    } else {
        10 * digits_value(d.drop_last()) + (d.last() as int - '0' as int)
    }
}

/// The text with one leading `+` removed, if it has one.
pub open spec fn unsigned_digits(s: Seq<char>) -> Seq<char> {
    if s.len() > 0 && s[0] == '+' {
        s.skip(1)
    } else {
        s
    }
}

/// The port that `s` names: an optional `+` and then one or more decimal
/// digits whose value fits in a `u16`.
pub open spec fn port_number(s: Seq<char>) -> Option<u16> {
    let d = unsigned_digits(s);
    if d.len() > 0 && (forall|i: int| 0 <= i < d.len() ==> is_digit(#[trigger] d[i]))
        && digits_value(d) <= u16::MAX {
        Some(digits_value(d) as u16)
    } else {
        None
    }
}

pub open spec fn default_database_url() -> Seq<char> {
    "sqlite:oxitrack.db"@
}

proof fn lemma_digits_nonneg(d: Seq<char>)
    requires
        forall|i: int| 0 <= i < d.len() ==> is_digit(#[trigger] d[i]),
    ensures
        digits_value(d) >= 0,
    decreases d.len(),
{
    if d.len() > 0 {
        let e = d.drop_last();
        assert forall|i: int| 0 <= i < e.len() implies is_digit(#[trigger] e[i]) by {
            assert(e[i] == d[i]);
        }
        lemma_digits_nonneg(e);
        assert(is_digit(d[d.len() - 1]));
    }
}

proof fn lemma_digits_grow(d: Seq<char>, k: int)
    requires
        0 <= k <= d.len(),
        forall|i: int| 0 <= i < d.len() ==> is_digit(#[trigger] d[i]),
    ensures
        digits_value(d.subrange(0, k)) <= digits_value(d),
    decreases d.len() - k,
{
    if k < d.len() {
        lemma_digits_grow(d, k + 1);
        let a = d.subrange(0, k + 1);
        let b = d.subrange(0, k);
        assert(a.drop_last() =~= b);
        assert(is_digit(a.last()));
        assert forall|i: int| 0 <= i < b.len() implies is_digit(#[trigger] b[i]) by {
            assert(b[i] == d[i]);
        }
        lemma_digits_nonneg(b);
    } else {
        assert(d.subrange(0, k) =~= d);
    }
}

/// Reads a port number: an optional `+` followed by decimal digits whose
/// value fits in a `u16`; anything else gives `None`.
pub fn parse_port(text: &str) -> (r: Option<u16>)
    ensures
        r == port_number(text@),
{
    let n = text.unicode_len();
    let ghost s = text@;
    let ghost d = unsigned_digits(s);
    let mut i: usize = 0;
    if n > 0 && text.get_char(0) == '+' {
        i = 1;
    }
    assert(d =~= s.subrange(i as int, s.len() as int));
    if i == n {
        return None;
    }
    let start = i;
    let mut value: u32 = 0;
    while i < n
        invariant
            n == s.len(),
            s == text@,
            d == s.subrange(start as int, n as int),
            d == unsigned_digits(s),
            d.len() > 0,
            start <= i <= n,
            value <= u16::MAX,
            forall|j: int| 0 <= j < i - start ==> is_digit(#[trigger] d[j]),
            value as int == digits_value(d.subrange(0, i - start)),
        decreases n - i,
    {
        let c = text.get_char(i);
        let ghost k = i - start;
        assert(d[k] == c);
        if c < '0' || c > '9' {
            assert(!is_digit(d[k]));
            return None;
        }
        let ghost prefix = d.subrange(0, k + 1);
        assert(prefix.drop_last() =~= d.subrange(0, k));
        value = value * 10 + (c as u32 - '0' as u32);
        i = i + 1;
        assert(value as int == digits_value(prefix));
        if value > u16::MAX as u32 {
            proof {
                if forall|j: int| 0 <= j < d.len() ==> is_digit(#[trigger] d[j]) {
                    lemma_digits_grow(d, k + 1);
                }
            }
            return None;
        }
    }
    assert(d.subrange(0, n - start) =~= d);
    Some(value as u16)
}

impl Config {
    /// A configuration with the given store location and port.
    pub fn new(database_url: String, port: u16) -> (r: Config)
        ensures
            r.database_url@ == database_url@,
            r.port == port,
    {
        Config { database_url, port }
    }

    /// The configuration that settings read from the environment give: the
    /// default store location when none is set, and the default port when
    /// none is set or it is not a valid port number.
    pub fn from_settings(database_url: Option<String>, port: Option<String>) -> (r: Config)
        ensures
            r.database_url@ == match database_url {
                Some(u) => u@,
                None => default_database_url(),
            },
            r.port == match port {
                Some(p) => match port_number(p@) {
                    Some(n) => n,
                    None => DEFAULT_PORT,
                },
                None => DEFAULT_PORT,
            },
    {
        let database_url = match database_url {
            Some(u) => u,
            None => "sqlite:oxitrack.db".to_owned(),
        };
        let port = match port {
            Some(p) => match parse_port(p.as_str()) {
                Some(n) => n,
                None => DEFAULT_PORT,
            },
            None => DEFAULT_PORT,
        };
        Config { database_url, port }
    }

    /// The store location.
    pub fn database_url(&self) -> (r: &str)
        ensures
            r@ == self.database_url@,
    {
        self.database_url.as_str()
    }

    /// The port to listen on.
    pub fn port(&self) -> (r: u16)
        ensures
            r == self.port,
    {
        self.port
    }
}

} // verus!
