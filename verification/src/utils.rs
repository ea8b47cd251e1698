//! Identifiers, orders, trades, market configuration and decimal parsing.

use vstd::prelude::*;

verus! {

pub type OrderId = u64;

pub type OrderSize = u64;

pub type OrderPrice = u64;

pub type MarketId = u32;

pub type AssetId = u32;

pub type UserId = u32;

#[derive(Copy, Clone, Debug, PartialEq, Eq, Structural)]
pub enum OrderSide {
    Buy,
    Sell,
}

/// An order to buy or sell at the stated or better price for the stated size.
#[derive(Copy, Clone, Debug, PartialEq, Eq, Structural)]
pub struct Order {
    pub id: OrderId,
    pub user_id: UserId,
    pub market_id: MarketId,
    pub side: OrderSide,
    pub price: OrderPrice,
    pub size: OrderSize,
    pub remaining: OrderSize,
}

impl Order {
    /// A fresh order is entirely unfilled: `remaining` starts at `size`.
    pub fn new(
        id: OrderId,
        user_id: UserId,
        market_id: MarketId,
        side: OrderSide,
        price: OrderPrice,
        size: OrderSize,
    ) -> (r: Order)
        ensures
            r == (Order { id, user_id, market_id, side, price, size, remaining: size }),
    {
        Order { id, user_id, market_id, side, price, size, remaining: size }
    }
}

/// A trade is a match between a resting maker order and an arriving taker.
#[derive(Copy, Clone, Debug, PartialEq, Eq, Structural)]
pub struct Trade {
    pub market_id: MarketId,
    pub price: OrderPrice,
    pub size: OrderSize,
    pub maker_order_id: OrderId,
    pub taker_order_id: OrderId,
    pub maker_user_id: UserId,
    pub taker_user_id: UserId,
    /// Which side the maker was on.
    pub side: OrderSide,
}

/// The trade a maker and a taker produce: the maker's price, and the
/// smaller of the two unfilled remainders.
pub open spec fn spec_trade(maker: Order, taker: Order) -> Trade {
    Trade {
        market_id: maker.market_id,
        price: maker.price,
        size: if maker.remaining <= taker.remaining {
            maker.remaining
        } else {
            taker.remaining
        },
        maker_order_id: maker.id,
        taker_order_id: taker.id,
        maker_user_id: maker.user_id,
        taker_user_id: taker.user_id,
        side: maker.side,
    }
}

impl Trade {
    pub fn new(maker: &Order, taker: &Order) -> (r: Trade)
        ensures
            r == spec_trade(*maker, *taker),
    {
        Trade {
            market_id: maker.market_id,
            price: maker.price,
            size: if maker.remaining <= taker.remaining {
                maker.remaining
            } else {
                taker.remaining
            },
            maker_order_id: maker.id,
            taker_order_id: taker.id,
            maker_user_id: maker.user_id,
            taker_user_id: taker.user_id,
            side: maker.side,
        }
    }
}


/// A tradable pair: amounts of the base asset are bought and sold, and
/// paid for in the quote asset.
#[derive(Clone, Debug)]
pub struct Market {
    pub id: MarketId,
    pub name: String,
    pub price_precision: u32,
    pub size_precision: u32,
    pub base_asset_id: AssetId,
    pub quote_asset_id: AssetId,
}

#[derive(Clone, Debug)]
pub struct Asset {
    pub id: AssetId,
    pub name: String,
    pub precision: u32,
}

/// The index of the first market carrying `id`, or -1 when none does.
pub open spec fn spec_market_index(s: Seq<Market>, id: MarketId) -> int
    decreases s.len(),
{
    if s.len() == 0 {
        -1
    } else if s[0].id == id {
        0
    } else {
        let r = spec_market_index(s.drop_first(), id);
        if r == -1 {
            -1
        } else {
            r + 1
        }
    }
}

pub open spec fn spec_market_known(c: Config, id: MarketId) -> bool {
    spec_market_index(c.markets@, id) >= 0
}

/// The market a known id names.
pub open spec fn spec_market(c: Config, id: MarketId) -> Market {
    c.markets@[spec_market_index(c.markets@, id)]
}

/// Immutable registry of the assets and markets the engine serves.
#[derive(Clone, Debug)]
pub struct Config {
    pub markets: Vec<Market>,
    pub assets: Vec<Asset>,
}

pub proof fn lemma_market_index_char(s: Seq<Market>, id: MarketId)
    ensures
        -1 <= spec_market_index(s, id) < s.len(),
        spec_market_index(s, id) == -1 ==> forall|i: int| 0 <= i < s.len() ==> (#[trigger] s[i]).id
            != id,
        spec_market_index(s, id) >= 0 ==> s[spec_market_index(s, id)].id == id && (forall|i: int|
            0 <= i < spec_market_index(s, id) ==> (#[trigger] s[i]).id != id),
    decreases s.len(),
{
    if s.len() == 0 {
    } else if s[0].id == id {
    } else {
        lemma_market_index_char(s.drop_first(), id);
        let r = spec_market_index(s.drop_first(), id);
        assert forall|i: int| 1 <= i < s.len() implies s.drop_first()[i - 1] == s[i] by {}
        if r >= 0 {
            assert(s.drop_first()[r] == s[r + 1]);
        }
    }
}

impl Config {
    /// Finds the market carrying `id`.
    pub fn find_market(&self, id: MarketId) -> (r: Option<usize>)
        ensures
            ({
                let f = spec_market_index(self.markets@, id);
                match r {
                    Some(i) => f == i as int && i < self.markets@.len(),
                    None => f == -1,
                }
            }),
    {
        proof {
            lemma_market_index_char(self.markets@, id);
        }
        let mut i: usize = 0;
        loop
            invariant
                i <= self.markets@.len(),
                forall|j: int| 0 <= j < i ==> (#[trigger] self.markets@[j]).id != id,
            ensures
                i <= self.markets@.len(),
                forall|j: int| 0 <= j < i ==> (#[trigger] self.markets@[j]).id != id,
                i < self.markets@.len() ==> self.markets@[i as int].id == id,
            decreases self.markets@.len() - i,
        {
            if i == self.markets.len() {
                break ;
            }
            if self.markets[i].id == id {
                break ;
            }
            i = i + 1;
        }
        proof {
            lemma_market_index_char(self.markets@, id);
        }
        if i == self.markets.len() {
            None
        } else {
            Some(i)
        }
    }

    /// The fixed development registry: one market, BTC priced in USD.
    pub fn hardcoded() -> (r: Config)
        ensures
            r.markets@.len() == 1,
            r.markets@[0].id == 1,
            r.markets@[0].name@ == "BTCUSD"@,
            r.markets@[0].base_asset_id == 1,
            r.markets@[0].quote_asset_id == 2,
            r.markets@[0].price_precision == 2,
            r.markets@[0].size_precision == 3,
            r.assets@.len() == 2,
            r.assets@[0].id == 1,
            r.assets@[0].name@ == "BTC"@,
            r.assets@[0].precision == 8,
            r.assets@[1].id == 2,
            r.assets@[1].name@ == "USD"@,
            r.assets@[1].precision == 5,
    {
        let btc = Asset { id: 1, name: "BTC".to_owned(), precision: 8 };
        let usd = Asset { id: 2, name: "USD".to_owned(), precision: 5 };
        let btcusd = Market {
            id: 1,
            name: "BTCUSD".to_owned(),
            price_precision: 2,
            size_precision: 3,
            base_asset_id: 1,
            quote_asset_id: 2,
        };
        let mut assets: Vec<Asset> = Vec::new();
        assets.push(btc);
        assets.push(usd);
        let mut markets: Vec<Market> = Vec::new();
        markets.push(btcusd);
        Config { markets, assets }
    }
}


/// Why a human decimal string does not parse.
#[derive(Copy, Clone, Debug, PartialEq, Eq, Structural)]
pub enum ParseDecimalError {
    BadIntegerPart,
    BadDecimalPart,
    ExtraDecimalPoint,
    PrecisionTooHigh,
}

pub open spec fn is_digit(c: char) -> bool {
    '0' <= c && c <= '9'
}

pub open spec fn digit_val(c: char) -> int {
    c as int - '0' as int
}

pub open spec fn all_digits(s: Seq<char>) -> bool {
    forall|i: int| 0 <= i < s.len() ==> is_digit(#[trigger] s[i])
}

/// The number a digit string denotes.
pub open spec fn digits_value(s: Seq<char>) -> int
    decreases s.len(),
{
    if s.len() == 0 {
        0
    } else {
        digits_value(s.drop_last()) * 10 + digit_val(s.last())
    }
}

pub open spec fn pow10(n: nat) -> int
    decreases n,
{
    if n == 0 {
        1
    } else {
        10 * pow10((n - 1) as nat)
    }
}

/// The index of the first decimal point, or the length when none occurs.
pub open spec fn spec_first_dot(s: Seq<char>) -> int
    decreases s.len(),
{
    if s.len() == 0 {
        0
    } else if s[0] == '.' {
        0
    } else {
        1 + spec_first_dot(s.drop_first())
    }
}

/// What parsing an unsigned integer accepts: an optional leading plus
/// sign, then at least one digit, denoting a representable value.
pub open spec fn spec_parse_u64(s: Seq<char>) -> Option<int> {
    let body = if s.len() > 0 && s[0] == '+' {
        s.drop_first()
    } else {
        s
    };
    if body.len() == 0 || !all_digits(body) || digits_value(body) > u64::MAX as int {
        None
    } else {
        Some(digits_value(body))
    }
}

/// The last step of decimal parsing: scale the fractional part to the
/// asked precision, dropping excess digits only when precision loss is
/// allowed, and assemble the scaled value.
pub open spec fn spec_finish_decimal(
    int_part: int,
    dec_part: int,
    width: int,
    places: u32,
    allow_precision_loss: bool,
) -> Result<int, ParseDecimalError> {
    if places >= width {
        Ok(pow10(places as nat) * int_part + dec_part * pow10((places - width) as nat))
    } else if !allow_precision_loss {
        Err(ParseDecimalError::PrecisionTooHigh)
    } else {
        Ok(pow10(places as nat) * int_part + dec_part / pow10((width - places) as nat))
    }
}

/// Parsing a human decimal such as `12.34` into an integer amount scaled
/// by `10 ^ decimal_places`: an integer part, at most one decimal point,
/// and an optional fractional part, each part in the unsigned-integer
/// grammar above.  A missing or empty fractional part counts as one digit
/// wide.
pub open spec fn spec_parse_decimal(
    s: Seq<char>,
    decimal_places: u32,
    allow_precision_loss: bool,
) -> Result<int, ParseDecimalError> {
    let d1 = spec_first_dot(s);
    match spec_parse_u64(s.take(d1)) {
        None => Err(ParseDecimalError::BadIntegerPart),
        Some(int_part) => {
            if d1 == s.len() {
                spec_finish_decimal(int_part, 0, 1, decimal_places, allow_precision_loss)
            } else {
                let tail = s.skip(d1 + 1);
                let d2 = spec_first_dot(tail);
                let frac = tail.take(d2);
                if frac.len() == 0 {
                    if d2 < tail.len() {
                        Err(ParseDecimalError::ExtraDecimalPoint)
                    } else {
                        spec_finish_decimal(int_part, 0, 1, decimal_places, allow_precision_loss)
                    }
                } else {
                    match spec_parse_u64(frac) {
                        None => Err(ParseDecimalError::BadDecimalPart),
                        Some(dec_part) => {
                            if d2 < tail.len() {
                                Err(ParseDecimalError::ExtraDecimalPoint)
                            } else {
                                spec_finish_decimal(
                                    int_part,
                                    dec_part,
                                    frac.len() as int,
                                    decimal_places,
                                    allow_precision_loss,
                                )
                            }
                        },
                    }
                }
            }
        },
    }
}

/// The width of the fractional part the parse would scale by: one for a
/// missing or empty fraction, else its digit count.
pub open spec fn spec_decimal_width(s: Seq<char>) -> int {
    let d1 = spec_first_dot(s);
    if d1 == s.len() {
        1
    } else {
        let tail = s.skip(d1 + 1);
        let d2 = spec_first_dot(tail);
        if d2 == 0 {
            1
        } else {
            d2
        }
    }
}


proof fn lemma_first_dot_char(s: Seq<char>)
    ensures
        0 <= spec_first_dot(s) <= s.len(),
        forall|j: int| 0 <= j < spec_first_dot(s) ==> (#[trigger] s[j]) != '.',
        spec_first_dot(s) < s.len() ==> s[spec_first_dot(s)] == '.',
    decreases s.len(),
{
    if s.len() == 0 {
    } else if s[0] == '.' {
    } else {
        lemma_first_dot_char(s.drop_first());
        let d = spec_first_dot(s);
        assert forall|j: int| 0 <= j < d implies (#[trigger] s[j]) != '.' by {
            if j >= 1 {
                assert(s.drop_first()[j - 1] == s[j]);
            }
        }
        if d < s.len() {
            assert(s.drop_first()[d - 1] == s[d]);
        }
    }
}

proof fn lemma_digits_value_nonneg(s: Seq<char>)
    requires
        all_digits(s),
    ensures
        digits_value(s) >= 0,
    decreases s.len(),
{
    if s.len() == 0 {
    } else {
        assert(all_digits(s.drop_last())) by {
            assert forall|i: int| 0 <= i < s.drop_last().len() implies is_digit(
                #[trigger] s.drop_last()[i],
            ) by {
                assert(s.drop_last()[i] == s[i]);
            }
        }
        lemma_digits_value_nonneg(s.drop_last());
        assert(is_digit(s.last()));
    }
}

proof fn lemma_pow10_pos(n: nat)
    ensures
        pow10(n) >= 1,
    decreases n,
{
    if n > 0 {
        lemma_pow10_pos((n - 1) as nat);
    }
}

proof fn lemma_pow10_mono(a: nat, b: nat)
    requires
        a <= b,
    ensures
        pow10(a) <= pow10(b),
    decreases b,
{
    if a < b {
        lemma_pow10_mono(a, (b - 1) as nat);
        lemma_pow10_pos((b - 1) as nat);
    }
}

proof fn lemma_pow10_19()
    ensures
        pow10(19) == 10000000000000000000,
{
    assert(pow10(0) == 1);
    assert(pow10(1) == 10);
    assert(pow10(2) == 100);
    assert(pow10(3) == 1000);
    assert(pow10(4) == 10000);
    assert(pow10(5) == 100000);
    assert(pow10(6) == 1000000);
    assert(pow10(7) == 10000000);
    assert(pow10(8) == 100000000);
    assert(pow10(9) == 1000000000);
    assert(pow10(10) == 10000000000);
    assert(pow10(11) == 100000000000);
    assert(pow10(12) == 1000000000000);
    assert(pow10(13) == 10000000000000);
    assert(pow10(14) == 100000000000000);
    assert(pow10(15) == 1000000000000000);
    assert(pow10(16) == 10000000000000000);
    assert(pow10(17) == 100000000000000000);
    assert(pow10(18) == 1000000000000000000);
    assert(pow10(19) == 10000000000000000000);
}

/// A digit string's value splits at any cut into the prefix scaled by the
/// suffix's width, plus the suffix.
proof fn lemma_digits_split(s: Seq<char>, k: int)
    requires
        0 <= k <= s.len(),
    ensures
        digits_value(s) == digits_value(s.take(k)) * pow10((s.len() - k) as nat) + digits_value(
            s.skip(k),
        ),
    decreases s.len(),
{
    if k == s.len() {
        assert(s.take(k) =~= s);
        assert(s.skip(k) =~= Seq::<char>::empty());
        assert(digits_value(Seq::<char>::empty()) == 0);
    } else {
        lemma_digits_split(s.drop_last(), k);
        assert(s.drop_last().take(k) =~= s.take(k));
        assert(s.skip(k).drop_last() =~= s.drop_last().skip(k));
        assert(s.skip(k).last() == s.last());
        assert(s.skip(k).len() > 0);
        let a = digits_value(s.take(k));
        let p = pow10((s.len() - 1 - k) as nat);
        let d = digit_val(s.last());
        let x = digits_value(s.drop_last().skip(k));
        assert(digits_value(s.drop_last()) == a * p + x);
        assert(pow10((s.len() - k) as nat) == 10 * p);
        assert(digits_value(s) == digits_value(s.drop_last()) * 10 + d);
        assert(digits_value(s.skip(k)) == x * 10 + d);
        assert((a * p + x) * 10 + d == (a * p) * 10 + (x * 10 + d)) by (nonlinear_arith);
        assert((a * p) * 10 == a * (10 * p)) by (nonlinear_arith);
        assert(digits_value(s) == a * (10 * p) + (x * 10 + d));
    }
}

/// A digit string is worth at least any of its prefixes.
proof fn lemma_digits_prefix_le(s: Seq<char>, k: int)
    requires
        all_digits(s),
        0 <= k <= s.len(),
    ensures
        digits_value(s.take(k)) <= digits_value(s),
{
    lemma_digits_split(s, k);
    assert(all_digits(s.skip(k))) by {
        assert forall|i: int| 0 <= i < s.skip(k).len() implies is_digit(#[trigger] s.skip(k)[i])
            by {
            assert(s.skip(k)[i] == s[k + i]);
        }
    }
    assert(all_digits(s.take(k))) by {
        assert forall|i: int| 0 <= i < s.take(k).len() implies is_digit(#[trigger] s.take(k)[i])
            by {
            assert(s.take(k)[i] == s[i]);
        }
    }
    lemma_digits_value_nonneg(s.skip(k));
    lemma_digits_value_nonneg(s.take(k));
    lemma_pow10_pos((s.len() - k) as nat);
    let a = digits_value(s.take(k));
    let p = pow10((s.len() - k) as nat);
    assert(a * p >= a * 1) by (nonlinear_arith)
        requires
            a >= 0,
            p >= 1,
    ;
}


fn pow10_u64(k: u32) -> (r: u64)
    requires
        k <= 19,
    ensures
        r as int == pow10(k as nat),
{
    proof {
        lemma_pow10_19();
    }
    let mut factor: u64 = 1;
    let mut j: u32 = 0;
    while j < k
        invariant
            j <= k,
            k <= 19,
            factor as int == pow10(j as nat),
        decreases k - j,
    {
        proof {
            lemma_pow10_mono(j as nat + 1, 19);
            lemma_pow10_19();
        }
        factor = factor * 10;
        j = j + 1;
    }
    factor
}

/// The index of the first decimal point at or after `from`, or the string
/// length when none occurs there.
fn find_dot(s: &str, from: usize, n: usize) -> (r: usize)
    requires
        n == s@.len(),
        from <= n,
    ensures
        from <= r <= n,
        r - from == spec_first_dot(s@.skip(from as int)),
{
    proof {
        lemma_first_dot_char(s@.skip(from as int));
    }
    let mut i = from;
    loop
        invariant
            from <= i <= n,
            n == s@.len(),
            forall|j: int| from <= j < i ==> (#[trigger] s@[j]) != '.',
        ensures
            from <= i <= n,
            forall|j: int| from <= j < i ==> (#[trigger] s@[j]) != '.',
            i < n ==> s@[i as int] == '.',
        decreases n - i,
    {
        if i == n {
            break ;
        }
        let c = s.get_char(i);
        if c == '.' {
            break ;
        }
        i = i + 1;
    }
    proof {
        let t = s@.skip(from as int);
        let d = spec_first_dot(t);
        assert forall|j: int| 0 <= j < t.len() implies #[trigger] t[j] == s@[from + j] by {}
        if d < i - from {
            assert(t[d] == '.');
        }
        if i - from < d {
            assert(t[i - from] != '.');
            assert(s@[i as int] == '.');
        }
    }
    i
}

/// Parses the characters of `[from, to)` as an unsigned integer in the
/// grammar of `spec_parse_u64`.
fn parse_u64_span(s: &str, from: usize, to: usize) -> (r: Option<u64>)
    requires
        from <= to <= s@.len(),
    ensures
        ({
            let p = spec_parse_u64(s@.subrange(from as int, to as int));
            match r {
                Some(v) => p == Some(v as int),
                None => p is None,
            }
        }),
{
    let ghost body0 = s@.subrange(from as int, to as int);
    let mut start = from;
    if from < to && s.get_char(from) == '+' {
        start = from + 1;
    }
    let ghost body = if body0.len() > 0 && body0[0] == '+' {
        body0.drop_first()
    } else {
        body0
    };
    proof {
        assert(body =~= s@.subrange(start as int, to as int));
    }
    if start == to {
        proof {
            assert(body.len() == 0);
            assert(spec_parse_u64(body0) is None);
        }
        return None;
    }
    let mut acc: u64 = 0;
    let mut i = start;
    proof {
        assert(s@.subrange(start as int, start as int) =~= Seq::<char>::empty());
    }
    loop
        invariant
            start <= i <= to,
            from <= start,
            to <= s@.len(),
            start < to,
            body0 == s@.subrange(from as int, to as int),
            body == (if body0.len() > 0 && body0[0] == '+' {
                body0.drop_first()
            } else {
                body0
            }),
            body == s@.subrange(start as int, to as int),
            all_digits(s@.subrange(start as int, i as int)),
            acc as int == digits_value(s@.subrange(start as int, i as int)),
        ensures
            i == to,
            all_digits(body),
            acc as int == digits_value(body),
        decreases to - i,
    {
        if i == to {
            proof {
                assert(s@.subrange(start as int, i as int) =~= body);
            }
            break ;
        }
        let c = s.get_char(i);
        let cv = c as u32;
        if cv < 48 || cv > 57 {
            proof {
                assert(body[i - start] == s@[i as int]);
                assert('0' as int == 48 && '9' as int == 57);
                assert(!is_digit(body[i - start]));
                assert(!all_digits(body));
                assert(spec_parse_u64(body0) is None);
            }
            return None;
        }
        proof {
            assert('0' as int == 48 && '9' as int == 57);
            assert(is_digit(c));
        }
        let d = (cv - 48) as u64;
        let wide: u128 = (acc as u128) * 10 + (d as u128);
        proof {
            let prefix = s@.subrange(start as int, i as int);
            let prefix2 = s@.subrange(start as int, i as int + 1);
            assert(prefix2 =~= prefix.push(c));
            assert(prefix2.drop_last() =~= prefix);
            assert(digits_value(prefix2) == digits_value(prefix) * 10 + digit_val(c));
            assert(all_digits(prefix2)) by {
                assert forall|j: int| 0 <= j < prefix2.len() implies is_digit(
                    #[trigger] prefix2[j],
                ) by {
                    if j < prefix.len() {
                        assert(prefix2[j] == prefix[j]);
                    }
                }
            }
        }
        if wide > u64::MAX as u128 {
            proof {
                let prefix2 = s@.subrange(start as int, i as int + 1);
                if all_digits(body) {
                    assert(body.take(i + 1 - start) =~= prefix2);
                    lemma_digits_prefix_le(body, i + 1 - start);
                    assert(digits_value(body) > u64::MAX as int);
                }
                assert(spec_parse_u64(body0) is None);
            }
            return None;
        }
        acc = wide as u64;
        i = i + 1;
    }
    Some(acc)
}


/// Parses a human decimal such as `12.34` into an integer amount scaled by
/// `10 ^ decimal_places`, exactly as `spec_parse_decimal` says.  The
/// preconditions bound the scaling so that no intermediate product leaves
/// the result type: at most nineteen asked decimal places, a fractional
/// part at most nineteen digits wider than that, and a result that fits.
pub fn parse_decimal(input: &str, decimal_places: u32, allow_precision_loss: bool) -> (r: Result<
    u64,
    ParseDecimalError,
>)
    requires
        decimal_places <= 19,
        spec_decimal_width(input@) <= decimal_places + 19,
        (spec_parse_decimal(input@, decimal_places, allow_precision_loss) matches Ok(v) ==> v
            <= u64::MAX as int),
    ensures
        ({
            let p = spec_parse_decimal(input@, decimal_places, allow_precision_loss);
            match r {
                Ok(v) => p == Ok::<int, ParseDecimalError>(v as int),
                Err(e) => p == Err::<int, ParseDecimalError>(e),
            }
        }),
{
    let n = input.unicode_len();
    let d1 = find_dot(input, 0, n);
    proof {
        assert(input@.skip(0) =~= input@);
    }
    let int_part = match parse_u64_span(input, 0, d1) {
        None => {
            proof {
                assert(input@.subrange(0, d1 as int) =~= input@.take(d1 as int));
            }
            return Err(ParseDecimalError::BadIntegerPart);
        },
        Some(v) => v,
    };
    proof {
        assert(input@.subrange(0, d1 as int) =~= input@.take(d1 as int));
    }
    let (dec_part, width): (u64, u32) = if d1 == n {
        (0, 1)
    } else {
        let d2abs = find_dot(input, d1 + 1, n);
        let ghost tail = input@.skip(d1 as int + 1);
        let ghost d2 = d2abs as int - (d1 as int + 1);
        proof {
            assert(tail.take(d2) =~= input@.subrange(d1 as int + 1, d2abs as int));
        }
        if d2abs == d1 + 1 {
            if d2abs < n {
                return Err(ParseDecimalError::ExtraDecimalPoint);
            }
            (0, 1)
        } else {
            let dv = match parse_u64_span(input, d1 + 1, d2abs) {
                None => {
                    return Err(ParseDecimalError::BadDecimalPart);
                },
                Some(v) => v,
            };
            if d2abs < n {
                return Err(ParseDecimalError::ExtraDecimalPoint);
            }
            proof {
                assert(spec_decimal_width(input@) == d2);
            }
            (dv, (d2abs - (d1 + 1)) as u32)
        }
    };
    proof {
        assert(width as int == spec_decimal_width(input@));
        assert(spec_parse_decimal(input@, decimal_places, allow_precision_loss)
            == spec_finish_decimal(
            int_part as int,
            dec_part as int,
            width as int,
            decimal_places,
            allow_precision_loss,
        ));
    }
    if decimal_places >= width {
        let shift = decimal_places - width;
        let factor = pow10_u64(shift);
        let scale = pow10_u64(decimal_places);
        proof {
            lemma_pow10_pos(shift as nat);
            lemma_pow10_pos(decimal_places as nat);
            assert((dec_part as int) * (factor as int) >= 0) by (nonlinear_arith)
                requires
                    dec_part >= 0,
                    factor >= 0,
            ;
            assert((scale as int) * (int_part as int) >= 0) by (nonlinear_arith)
                requires
                    scale >= 0,
                    int_part >= 0,
            ;
        }
        let scaled_dec = dec_part * factor;
        let base = scale * int_part;
        Ok(base + scaled_dec)
    } else if !allow_precision_loss {
        Err(ParseDecimalError::PrecisionTooHigh)
    } else {
        let surplus = width - decimal_places;
        let factor = pow10_u64(surplus);
        let scale = pow10_u64(decimal_places);
        proof {
            lemma_pow10_pos(surplus as nat);
            lemma_pow10_pos(decimal_places as nat);
            assert((scale as int) * (int_part as int) >= 0) by (nonlinear_arith)
                requires
                    scale >= 0,
                    int_part >= 0,
            ;
        }
        let scaled_dec = dec_part / factor;
        let base = scale * int_part;
        Ok(base + scaled_dec)
    }
}

} // verus!
