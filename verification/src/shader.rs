//! Shader sources: the shared traversal core with an entry module after it, and
//! the constants a module needs injected ahead of both.

use vstd::prelude::*;
use vstd::string::*;

verus! {

/// The character of a decimal digit.
pub open spec fn digit_char(d: nat) -> char {
    if d == 0 {
        '0'
    } else if d == 1 {
        '1'
    } else if d == 2 {
        '2'
    } else if d == 3 {
        '3'
    } else if d == 4 {
        '4'
    } else if d == 5 {
        '5'
    } else if d == 6 {
        '6'
    } else if d == 7 {
        '7'
    } else if d == 8 {
        '8'
    } else {
        '9'
    }
}

/// A number in decimal, without leading zeros.
pub open spec fn decimal(n: nat) -> Seq<char>
    decreases n,
{
    if n < 10 {
        seq![digit_char(n)]
    } else {
        decimal(n / 10).push(digit_char(n % 10))
    }
}

/// One decimal digit as text.
fn digit_str(d: u32) -> (r: &'static str)
    requires
        d < 10,
    ensures
        r@ == seq![digit_char(d as nat)],
{
    proof {
        reveal_strlit("0");
        reveal_strlit("1");
        reveal_strlit("2");
        reveal_strlit("3");
        reveal_strlit("4");
        reveal_strlit("5");
        reveal_strlit("6");
        reveal_strlit("7");
        reveal_strlit("8");
        reveal_strlit("9");
    }
    let r: &'static str = match d {
        0 => "0",
        1 => "1",
        2 => "2",
        3 => "3",
        4 => "4",
        5 => "5",
        6 => "6",
        7 => "7",
        8 => "8",
        _ => "9",
    };
    assert(r@ =~= seq![digit_char(d as nat)]);
    r
}

/// Appends a number in decimal.
pub fn push_decimal(s: &mut String, n: u32)
    ensures
        final(s)@ == old(s)@ + decimal(n as nat),
    decreases n,
{
    if n >= 10 {
        push_decimal(s, n / 10);
    }
    s.append(digit_str(n % 10));
    proof {
        if n >= 10 {
            assert(s@ =~= old(s)@ + decimal((n / 10) as nat).push(digit_char((n % 10) as nat)));
        }
    }
}

/// A declaration of a `u32` shader constant, on a line of its own.
pub open spec fn declaration(name: Seq<char>, value: u32) -> Seq<char> {
    "const "@ + name + ": u32 = "@ + decimal(value as nat) + "u;\n"@
}

fn push_declaration(s: &mut String, name: &str, value: u32)
    ensures
        final(s)@ == old(s)@ + declaration(name@, value),
{
    s.append("const ");
    s.append(name);
    s.append(": u32 = ");
    push_decimal(s, value);
    s.append("u;\n");
    assert(s@ =~= old(s)@ + declaration(name@, value));
}

/// Two modules, one after the other.
pub open spec fn modules(traversal: Seq<char>, entry: Seq<char>) -> Seq<char> {
    traversal + "\n"@ + entry
}

/// A shader module source: the shared traversal core ahead of an entry-point
/// module, so every kernel calls the same traversal.
#[must_use]
pub fn shader_source(traversal: &str, entry: &str) -> (r: String)
    ensures
        r@ == modules(traversal@, entry@),
{
    let mut s: String = String::from_str(traversal);
    s.append("\n");
    s.append(entry);
    s
}

/// The truecolor shader source: the injected chunk-size constant, then the
/// shared traversal core, then the truecolor entry.
#[must_use]
pub fn color_shader_source(per_chunk: u32, traversal: &str, entry: &str) -> (r: String)
    ensures
        r@ == declaration("PER_CHUNK"@, per_chunk) + modules(traversal@, entry@),
{
    let mut s: String = String::from_str("");
    proof {
        reveal_strlit("");
    }
    push_declaration(&mut s, "PER_CHUNK", per_chunk);
    let body: String = shader_source(traversal, entry);
    s.append(body.as_str());
    assert(s@ =~= declaration("PER_CHUNK"@, per_chunk) + modules(traversal@, entry@));
    s
}

/// The truecolor **blend** shader source: the chunk-size and blend-depth
/// constants, then the shared traversal core, then the front-to-back
/// compositing entry.
#[must_use]
pub fn color_blend_shader_source(
    per_chunk: u32,
    max_blend: u32,
    traversal: &str,
    entry: &str,
) -> (r: String)
    ensures
        r@ == declaration("PER_CHUNK"@, per_chunk) + declaration("MAX_BLEND"@, max_blend) + modules(
            traversal@,
            entry@,
        ),
{
    let mut s: String = String::from_str("");
    proof {
        reveal_strlit("");
    }
    push_declaration(&mut s, "PER_CHUNK", per_chunk);
    push_declaration(&mut s, "MAX_BLEND", max_blend);
    let body: String = shader_source(traversal, entry);
    s.append(body.as_str());
    assert(s@ =~= declaration("PER_CHUNK"@, per_chunk) + declaration("MAX_BLEND"@, max_blend)
        + modules(traversal@, entry@));
    s
}

/// The value of a decimal digit.
pub open spec fn digit_value(c: char) -> nat {
    (c as nat - '0' as nat) as nat
}

/// The number that decimal digits denote.
pub open spec fn numeral(s: Seq<char>) -> nat
    decreases s.len(),
{
    if s.len() == 0 {
        0
    } else {
        10 * numeral(s.drop_last()) + digit_value(s.last())
    }
}

/// Decimal digits denote the number they were written from.
pub proof fn law_decimal_denotes(n: nat)
    ensures
        numeral(decimal(n)) == n,
        decimal(n).len() >= 1,
    decreases n,
{
    if n < 10 {
        assert(decimal(n).drop_last() =~= Seq::<char>::empty());
        assert(numeral(decimal(n).drop_last()) == 0);
        assert(digit_value(digit_char(n)) == n);
    } else {
        law_decimal_denotes(n / 10);
        assert(decimal(n).drop_last() =~= decimal(n / 10));
        assert(digit_value(digit_char(n % 10)) == n % 10);
    }
}

/// A number is written with digits alone and without leading zeros.
pub proof fn law_decimal_is_plain(n: nat, i: int)
    requires
        0 <= i < decimal(n).len(),
    ensures
        '0' as u32 <= decimal(n)[i] as u32 <= '9' as u32,
        n > 0 ==> decimal(n)[0] != '0',
    decreases n,
{
    if n >= 10 {
        law_decimal_denotes(n / 10);
        law_decimal_is_plain(n / 10, 0);
        if i < decimal(n / 10).len() {
            law_decimal_is_plain(n / 10, i);
        }
    }
}

/// Every kernel's source ends with the shared core and its own entry, one after
/// the other on lines of their own; what is injected comes ahead of both, and
/// the compositing kernel has the opaque one's constants first.
pub proof fn law_core_precedes_entry(
    per_chunk: u32,
    max_blend: u32,
    traversal: &str,
    entry: &str,
    plain: String,
    color: String,
    blend: String,
)
    requires
        call_ensures(shader_source, (traversal, entry), plain),
        call_ensures(color_shader_source, (per_chunk, traversal, entry), color),
        call_ensures(color_blend_shader_source, (per_chunk, max_blend, traversal, entry), blend),
    ensures
        plain@.len() == traversal@.len() + 1 + entry@.len(),
        plain@.take(traversal@.len() as int) == traversal@,
        plain@[traversal@.len() as int] == '\n',
        plain@.skip(traversal@.len() as int + 1) == entry@,
        color@.len() > plain@.len() && color@.skip(color@.len() - plain@.len()) == plain@,
        blend@.len() > color@.len() && blend@.skip(blend@.len() - plain@.len()) == plain@,
        blend@.take(color@.len() - plain@.len()) == color@.take(color@.len() - plain@.len()),
{
    reveal_strlit("\n");
    reveal_strlit("const ");
    reveal_strlit("u;\n");
    let head = declaration("PER_CHUNK"@, per_chunk);
    let more = declaration("MAX_BLEND"@, max_blend);
    assert(plain@.take(traversal@.len() as int) =~= traversal@);
    assert(plain@.skip(traversal@.len() as int + 1) =~= entry@);
    assert(color@ =~= head + plain@);
    assert(blend@ =~= head + more + plain@);
    assert(color@.skip(color@.len() - plain@.len()) =~= plain@);
    assert(blend@.skip(blend@.len() - plain@.len()) =~= plain@);
    assert(color@.take(color@.len() - plain@.len()) =~= head);
    assert(blend@.take(color@.len() - plain@.len()) =~= head);
}

/// A number is appended in decimal, after what was there.
pub proof fn law_push_appends_number(s: &mut String, n: u32)
    requires
        call_ensures(push_decimal, (s, n), ()),
    ensures
        final(s)@.take(old(s)@.len() as int) == old(s)@,
        numeral(final(s)@.skip(old(s)@.len() as int)) == n,
        final(s)@.len() > old(s)@.len(),
{
    law_decimal_denotes(n as nat);
    assert(final(s)@.take(old(s)@.len() as int) =~= old(s)@);
    assert(final(s)@.skip(old(s)@.len() as int) =~= decimal(n as nat));
}

} // verus!
