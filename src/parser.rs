use vstd::prelude::*;
use vstd::string::StringSliceAdditionalSpecFns;
use crate::order::{OrderId, OrderType, Price, Quantity, Side};

verus! {

/// A command line, read into typed fields.
#[derive(Debug, Clone, Copy, PartialEq, Eq)]
pub enum Command {
    NewOrder { side: Side, order_type: OrderType, price: Option<Price>, quantity: Quantity },
    Cancel { order_id: OrderId },
}

/// ASCII whitespace, as `split_ascii_whitespace` counts it.
pub open spec fn is_ws(b: u8) -> bool {
    b == 32 || b == 9 || b == 10 || b == 12 || b == 13
}

/// The words of `s` left after the word under construction `cur`, split on
/// ASCII whitespace; empty words are dropped.
pub open spec fn words_from(s: Seq<u8>, cur: Seq<u8>) -> Seq<Seq<u8>>
    decreases s.len(),
{
    if s.len() == 0 {
        if cur.len() > 0 {
            seq![cur]
        } else {
            seq![]
        }
    } else if is_ws(s[0]) {
        (if cur.len() > 0 {
            seq![cur]
        } else {
            seq![]
        }) + words_from(s.drop_first(), seq![])
    } else {
        words_from(s.drop_first(), cur.push(s[0]))
    }
}

pub open spec fn words(s: Seq<u8>) -> Seq<Seq<u8>> {
    words_from(s, seq![])
}

pub open spec fn words_view(v: Seq<Vec<u8>>) -> Seq<Seq<u8>> {
    v.map_values(|w: Vec<u8>| w@)
}

fn split_words(s: &[u8]) -> (r: Vec<Vec<u8>>)
    ensures
        words_view(r@) == words(s@),
{
    let mut out: Vec<Vec<u8>> = Vec::new();
    let mut cur: Vec<u8> = Vec::new();
    let mut i: usize = 0;
    assert(s@.subrange(0, s@.len() as int) =~= s@);
    assert(words_view(out@) + words(s@) =~= words(s@));
    while i < s.len()
        invariant
            0 <= i <= s@.len(),
            words_view(out@) + words_from(s@.subrange(i as int, s@.len() as int), cur@) == words(
                s@,
            ),
        decreases s@.len() - i,
    {
        let ghost rest = s@.subrange(i as int, s@.len() as int);
        assert(rest.drop_first() =~= s@.subrange(i + 1, s@.len() as int));
        let b = s[i];
        assert(rest[0] == b);
        let ghost c0 = cur@;
        let ghost out0 = out@;
        if b == 32 || b == 9 || b == 10 || b == 12 || b == 13 {
            assert(words_from(rest, c0) == (if c0.len() > 0 {
                seq![c0]
            } else {
                seq![]
            }) + words_from(rest.drop_first(), seq![]));
            if cur.len() > 0 {
                let word = cur;
                out.push(word);
                cur = Vec::new();
                assert(words_view(out@) =~= words_view(out0).push(c0));
                assert(words_view(out@) + words_from(rest.drop_first(), seq![]) =~= words_view(
                    out0,
                ) + (seq![c0] + words_from(rest.drop_first(), seq![])));
            } else {
                assert(cur@ =~= Seq::<u8>::empty());
                assert(words_view(out@) + (seq![] + words_from(rest.drop_first(), seq![]))
                    =~= words_view(out@) + words_from(rest.drop_first(), seq![]));
            }
        } else {
            cur.push(b);
            assert(words_from(rest, c0) == words_from(rest.drop_first(), cur@));
        }
        i += 1;
    }
    assert(s@.subrange(i as int, s@.len() as int).len() == 0);
    if cur.len() > 0 {
        let ghost w = cur@;
        let ghost before = out@;
        out.push(cur);
        assert(words_view(out@) =~= words_view(before) + seq![w]);
    } else {
        assert(words_view(out@) + seq![] =~= words_view(out@));
    }
    out
}

pub open spec fn is_digit(b: u8) -> bool {
    48 <= b <= 57
}

pub open spec fn all_digits(s: Seq<u8>) -> bool {
    forall|i: int| 0 <= i < s.len() ==> is_digit(#[trigger] s[i])
}

/// The number that a run of decimal digits denotes.
pub open spec fn digits_value(s: Seq<u8>) -> int
    decreases s.len(),
{
    if s.len() == 0 {
        0
    } else {
        digits_value(s.drop_last()) * 10 + (s.last() - 48)
    }
}

/// Reads an integer as `str::parse` does: an optional `+` (or `-` when
/// `signed`), then one or more decimal digits; `None` when the text is not of
/// that form or the value lies outside `lo..=hi`.
pub open spec fn read_int(s: Seq<u8>, signed: bool, lo: int, hi: int) -> Option<int> {
    let neg = s.len() > 0 && s[0] == 45 && signed;
    let start: int = if s.len() > 0 && (s[0] == 43 || neg) {
        1
    } else {
        0
    };
    let d = s.subrange(start, s.len() as int);
    if d.len() == 0 || !all_digits(d) {
        None
    } else {
        let v = if neg {
            -digits_value(d)
        } else {
            digits_value(d)
        };
        if lo <= v <= hi {
            Some(v)
        } else {
            None
        }
    }
}

pub open spec fn read_i64(s: Seq<u8>) -> Option<int> {
    read_int(s, true, i64::MIN as int, i64::MAX as int)
}

pub open spec fn read_u64(s: Seq<u8>) -> Option<int> {
    read_int(s, false, 0, u64::MAX as int)
}

/// A bound above every value that an `i64` or a `u64` can hold.
pub open spec fn cap() -> int {
    0x1_0000_0000_0000_0000
}

/// The digits of `s` from `start` on, their value capped at `cap()`; `None`
/// when there are none or one is not a digit.
fn read_magnitude(s: &Vec<u8>, start: usize) -> (r: Option<u128>)
    requires
        start <= s@.len(),
    ensures
        ({
            let d = s@.subrange(start as int, s@.len() as int);
            match r {
                Some(m) => d.len() > 0 && all_digits(d) && m == (if digits_value(d) < cap() {
                    digits_value(d)
                } else {
                    cap()
                }),
                None => d.len() == 0 || !all_digits(d),
            }
        }),
{
    let ghost d = s@.subrange(start as int, s@.len() as int);
    if start >= s.len() {
        return None;
    }
    let limit: u128 = 0x1_0000_0000_0000_0000;
    let mut acc: u128 = 0;
    let mut i: usize = start;
    while i < s.len()
        invariant
            start <= i <= s@.len(),
            d == s@.subrange(start as int, s@.len() as int),
            all_digits(s@.subrange(start as int, i as int)),
            acc as int == (if digits_value(s@.subrange(start as int, i as int)) < cap() {
                digits_value(s@.subrange(start as int, i as int))
            } else {
                cap()
            }),
            limit as int == cap(),
        decreases s@.len() - i,
    {
        let b = s[i];
        if b < 48 || b > 57 {
            assert(!is_digit(d[i - start]));
            return None;
        }
        let ghost pre = s@.subrange(start as int, i as int);
        let ghost next = s@.subrange(start as int, i + 1);
        assert(next.drop_last() =~= pre);
        assert(digits_value(next) == digits_value(pre) * 10 + (b - 48));
        let dig = (b - 48) as u128;
        if acc >= limit {
            proof {
                assert(digits_value(pre) >= cap());
                assert(digits_value(pre) * 10 >= cap() * 10) by (nonlinear_arith)
                    requires
                        digits_value(pre) >= cap(),
                ;
            }
            acc = limit;
        } else {
            let v = acc * 10 + dig;
            if v >= limit {
                acc = limit;
            } else {
                acc = v;
            }
        }
        assert(all_digits(next)) by {
            assert forall|j: int| 0 <= j < next.len() implies is_digit(#[trigger] next[j]) by {
                if j < pre.len() {
                    assert(next[j] == pre[j]);
                }
            }
        }
        i += 1;
    }
    assert(s@.subrange(start as int, i as int) =~= d);
    Some(acc)
}

/// Reads a signed 64-bit integer.
fn read_i64_word(s: &Vec<u8>) -> (r: Option<i64>)
    ensures
        match r {
            Some(v) => read_i64(s@) == Some(v as int),
            None => read_i64(s@) is None,
        },
{
    let n = s.len();
    let neg = n > 0 && s[0] == 45;
    let start: usize = if n > 0 && (s[0] == 43 || neg) {
        1
    } else {
        0
    };
    match read_magnitude(s, start) {
        None => None,
        Some(m) => {
            if neg {
                if m <= 0x8000_0000_0000_0000 {
                    if m == 0x8000_0000_0000_0000 {
                        Some(i64::MIN)
                    } else {
                        Some(-(m as i64))
                    }
                } else {
                    None
                }
            } else {
                if m <= 0x7fff_ffff_ffff_ffff {
                    Some(m as i64)
                } else {
                    None
                }
            }
        },
    }
}

/// Reads an unsigned 64-bit integer.
fn read_u64_word(s: &Vec<u8>) -> (r: Option<u64>)
    ensures
        match r {
            Some(v) => read_u64(s@) == Some(v as int),
            None => read_u64(s@) is None,
        },
{
    let n = s.len();
    let start: usize = if n > 0 && s[0] == 43 {
        1
    } else {
        0
    };
    match read_magnitude(s, start) {
        None => None,
        Some(m) => {
            if m <= 0xffff_ffff_ffff_ffff {
                Some(m as u64)
            } else {
                None
            }
        },
    }
}

/// ASCII upper case of one byte.
pub open spec fn upper(b: u8) -> u8 {
    if 97 <= b <= 122 {
        (b - 32) as u8
    } else {
        b
    }
}

/// `w` is the keyword `kw` (given in upper case), in any ASCII case.
pub open spec fn word_is(w: Seq<u8>, kw: Seq<u8>) -> bool {
    w.len() == kw.len() && forall|i: int| 0 <= i < w.len() ==> upper(#[trigger] w[i]) == kw[i]
}

pub open spec fn kw_buy() -> Seq<u8> {
    seq![66u8, 85, 89]
}

pub open spec fn kw_sell() -> Seq<u8> {
    seq![83u8, 69, 76, 76]
}

pub open spec fn kw_limit() -> Seq<u8> {
    seq![76u8, 73, 77, 73, 84]
}

pub open spec fn kw_market() -> Seq<u8> {
    seq![77u8, 65, 82, 75, 69, 84]
}

pub open spec fn kw_cancel() -> Seq<u8> {
    seq![67u8, 65, 78, 67, 69, 76]
}

/// The command that a line's words spell, or the reason it spells none.
pub open spec fn command_of(ws: Seq<Seq<u8>>) -> Result<Command, Seq<char>> {
    if ws.len() == 0 {
        Err("Empty command"@)
    } else if word_is(ws[0], kw_buy()) || word_is(ws[0], kw_sell()) {
        new_order_of(ws)
    } else if word_is(ws[0], kw_cancel()) {
        cancel_of(ws)
    } else {
        Err("Unknown command"@)
    }
}

/// `BUY|SELL LIMIT <price> <qty>` or `BUY|SELL MARKET <qty>`.
pub open spec fn new_order_of(ws: Seq<Seq<u8>>) -> Result<Command, Seq<char>> {
    if ws.len() < 3 {
        Err("Invalid order format"@)
    } else if !word_is(ws[0], kw_buy()) && !word_is(ws[0], kw_sell()) {
        Err("Invalid side"@)
    } else {
        let side = if word_is(ws[0], kw_buy()) {
            Side::Buy
        } else {
            Side::Sell
        };
        if word_is(ws[1], kw_limit()) {
            if ws.len() != 4 {
                Err("Invalid limit order format"@)
            } else if read_i64(ws[2]) is None {
                Err("invalid price"@)
            } else if read_i64(ws[3]) is None {
                Err("invalid quantity"@)
            } else {
                Ok(
                    Command::NewOrder {
                        side,
                        order_type: OrderType::Limit,
                        price: Some(read_i64(ws[2])->Some_0 as i64),
                        quantity: read_i64(ws[3])->Some_0 as i64,
                    },
                )
            }
        } else if word_is(ws[1], kw_market()) {
            if ws.len() != 3 {
                Err("MARKET order requires quantity only"@)
            } else if read_i64(ws[2]) is None {
                Err("invalid quantity"@)
            } else {
                Ok(
                    Command::NewOrder {
                        side,
                        order_type: OrderType::Market,
                        price: None,
                        quantity: read_i64(ws[2])->Some_0 as i64,
                    },
                )
            }
        } else {
            Err("Invalid order type"@)
        }
    }
}

/// `CANCEL <order_id>`.
pub open spec fn cancel_of(ws: Seq<Seq<u8>>) -> Result<Command, Seq<char>> {
    if ws.len() != 2 {
        Err("CANCEL requires order_id"@)
    } else if read_u64(ws[1]) is None {
        Err("invalid order id"@)
    } else {
        Ok(Command::Cancel { order_id: read_u64(ws[1])->Some_0 as u64 })
    }
}

/// `r` is what `spec` says: the same command, or an error with the same text.
pub open spec fn parsed_as(r: Result<Command, String>, spec: Result<Command, Seq<char>>) -> bool {
    match r {
        Ok(c) => spec == Ok::<Command, Seq<char>>(c),
        Err(e) => spec is Err && e@ == spec->Err_0,
    }
}

fn word_is_exec(w: &Vec<u8>, kw: &Vec<u8>) -> (r: bool)
    ensures
        r == word_is(w@, kw@),
{
    if w.len() != kw.len() {
        return false;
    }
    let mut i: usize = 0;
    while i < w.len()
        invariant
            0 <= i <= w@.len(),
            w@.len() == kw@.len(),
            forall|j: int| 0 <= j < i ==> upper(#[trigger] w@[j]) == kw@[j],
        decreases w@.len() - i,
    {
        let b = w[i];
        let u = if 97 <= b && b <= 122 {
            b - 32
        } else {
            b
        };
        if u != kw[i] {
            return false;
        }
        i += 1;
    }
    true
}

/// Reads one command line: words split on ASCII whitespace, keywords in any
/// case.
pub fn parse_command(input: &str) -> (r: Result<Command, String>)
    ensures
        parsed_as(r, command_of(words(input.spec_bytes()))),
{
    proof {
        reveal_strlit("Empty command");
        reveal_strlit("Unknown command");
    }
    let parts = split_words(input.as_bytes());
    if parts.len() == 0 {
        return Err("Empty command".to_owned());
    }
    let buy = vec![66u8, 85, 89];
    let sell = vec![83u8, 69, 76, 76];
    let cancel = vec![67u8, 65, 78, 67, 69, 76];
    assert(parts@[0]@ == words(input.spec_bytes())[0]);
    if word_is_exec(&parts[0], &buy) || word_is_exec(&parts[0], &sell) {
        parse_new_order(&parts)
    } else if word_is_exec(&parts[0], &cancel) {
        parse_cancel(&parts)
    } else {
        Err("Unknown command".to_owned())
    }
}

fn parse_new_order(parts: &Vec<Vec<u8>>) -> (r: Result<Command, String>)
    ensures
        parsed_as(r, new_order_of(words_view(parts@))),
{
    proof {
        reveal_strlit("Invalid order format");
        reveal_strlit("Invalid side");
        reveal_strlit("Invalid limit order format");
        reveal_strlit("invalid price");
        reveal_strlit("invalid quantity");
        reveal_strlit("MARKET order requires quantity only");
        reveal_strlit("Invalid order type");
    }
    let ghost ws = words_view(parts@);
    if parts.len() < 3 {
        return Err("Invalid order format".to_owned());
    }
    assert(ws[0] == parts@[0]@ && ws[1] == parts@[1]@ && ws[2] == parts@[2]@);
    let side = if word_is_exec(&parts[0], &vec![66u8, 85, 89]) {
        Side::Buy
    } else if word_is_exec(&parts[0], &vec![83u8, 69, 76, 76]) {
        Side::Sell
    } else {
        return Err("Invalid side".to_owned());
    };
    let order_type = if word_is_exec(&parts[1], &vec![76u8, 73, 77, 73, 84]) {
        OrderType::Limit
    } else if word_is_exec(&parts[1], &vec![77u8, 65, 82, 75, 69, 84]) {
        OrderType::Market
    } else {
        return Err("Invalid order type".to_owned());
    };
    match order_type {
        OrderType::Limit => {
            if parts.len() != 4 {
                return Err("Invalid limit order format".to_owned());
            }
            assert(ws[3] == parts@[3]@);
            let price = match read_i64_word(&parts[2]) {
                Some(p) => p,
                None => {
                    return Err("invalid price".to_owned());
                },
            };
            let quantity = match read_i64_word(&parts[3]) {
                Some(q) => q,
                None => {
                    return Err("invalid quantity".to_owned());
                },
            };
            Ok(Command::NewOrder { side, order_type, price: Some(price), quantity })
        },
        OrderType::Market => {
            if parts.len() != 3 {
                return Err("MARKET order requires quantity only".to_owned());
            }
            let quantity = match read_i64_word(&parts[2]) {
                Some(q) => q,
                None => {
                    return Err("invalid quantity".to_owned());
                },
            };
            Ok(Command::NewOrder { side, order_type, price: None, quantity })
        },
    }
}

fn parse_cancel(parts: &Vec<Vec<u8>>) -> (r: Result<Command, String>)
    ensures
        parsed_as(r, cancel_of(words_view(parts@))),
{
    proof {
        reveal_strlit("CANCEL requires order_id");
        reveal_strlit("invalid order id");
    }
    let ghost ws = words_view(parts@);
    if parts.len() != 2 {
        return Err("CANCEL requires order_id".to_owned());
    }
    assert(ws[1] == parts@[1]@);
    let order_id = match read_u64_word(&parts[1]) {
        Some(id) => id,
        None => {
            return Err("invalid order id".to_owned());
        },
    };
    Ok(Command::Cancel { order_id })
}

} // verus!
