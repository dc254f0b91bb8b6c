//! Validation and normalisation of tag arguments: colours, link targets,
//! image sources, and the numeric arguments of `opacity` and `size`.
use vstd::prelude::*;
use vstd::string::*;

verus! {

/// `p` is a prefix of `s`.
pub open spec fn starts_with(s: Seq<char>, p: Seq<char>) -> bool {
    p.len() <= s.len() && s.take(p.len() as int) == p
}

/// `p` is a suffix of `s`.
pub open spec fn ends_with(s: Seq<char>, p: Seq<char>) -> bool {
    p.len() <= s.len() && s.skip(s.len() - p.len()) == p
}

/// Whether `s` starts with the characters of `p`.
pub fn has_prefix(s: &Vec<char>, p: &str) -> (r: bool)
    ensures
        r == starts_with(s@, p@),
{
    let n = p.unicode_len();
    if n > s.len() {
        return false;
    }
    let mut i: usize = 0;
    while i < n
        invariant
            n == p@.len(),
            n <= s@.len(),
            i <= n,
            forall|k: int| 0 <= k < i ==> s@[k] == p@[k],
        decreases n - i,
    {
        if s[i] != p.get_char(i) {
            assert(s@.take(n as int)[i as int] != p@[i as int]);
            return false;
        }
        i = i + 1;
    }
    assert(s@.take(n as int) =~= p@);
    true
}

/// Whether `s` ends with the characters of `p`.
pub fn has_suffix(s: &Vec<char>, p: &str) -> (r: bool)
    ensures
        r == ends_with(s@, p@),
{
    let n = p.unicode_len();
    if n > s.len() {
        return false;
    }
    let start = s.len() - n;
    let mut i: usize = 0;
    while i < n
        invariant
            n == p@.len(),
            n <= s@.len(),
            start + n == s@.len(),
            s@.len() <= usize::MAX,
            i <= n,
            forall|k: int| 0 <= k < i ==> s@[start + k] == p@[k],
        decreases n - i,
    {
        if s[start + i] != p.get_char(i) {
            assert(s@.skip(start as int)[i as int] != p@[i as int]);
            return false;
        }
        i = i + 1;
    }
    assert(s@.skip(start as int) =~= p@);
    true
}

/// Whether `s` holds exactly the characters of `p`.
pub fn is_word(s: &Vec<char>, p: &str) -> (r: bool)
    ensures
        r == (s@ == p@),
{
    let n = p.unicode_len();
    if n != s.len() {
        return false;
    }
    let r = has_prefix(s, p);
    assert(s@.take(n as int) =~= s@);
    r
}

pub open spec fn is_upper(c: char) -> bool {
    'A' <= c <= 'Z'
}

/// Equality of two characters up to ASCII case.
pub open spec fn same_letter(a: char, b: char) -> bool {
    a == b || (is_upper(a) && a as u32 + 32 == b as u32) || (is_upper(b) && b as u32 + 32
        == a as u32)
}

/// Equality of two strings up to ASCII case.
pub open spec fn same_letters(a: Seq<char>, b: Seq<char>) -> bool {
    a.len() == b.len() && forall|i: int| 0 <= i < a.len() ==> same_letter(a[i], b[i])
}

fn is_same_letter(a: char, b: char) -> (r: bool)
    ensures
        r == same_letter(a, b),
{
    a == b || ('A' <= a && a <= 'Z' && a as u32 + 32 == b as u32) || ('A' <= b && b <= 'Z'
        && b as u32 + 32 == a as u32)
}

/// Whether `s` equals `p` up to ASCII case.
pub fn is_word_any_case(s: &Vec<char>, p: &str) -> (r: bool)
    ensures
        r == same_letters(s@, p@),
{
    let n = p.unicode_len();
    if n != s.len() {
        return false;
    }
    let mut i: usize = 0;
    while i < n
        invariant
            n == p@.len(),
            n == s@.len(),
            i <= n,
            forall|k: int| 0 <= k < i ==> same_letter(s@[k], p@[k]),
        decreases n - i,
    {
        if !is_same_letter(s[i], p.get_char(i)) {
            return false;
        }
        i = i + 1;
    }
    true
}

pub open spec fn is_hex_digit(c: char) -> bool {
    ('0' <= c <= '9') || ('a' <= c <= 'f') || ('A' <= c <= 'F')
}

/// `#RGB` or `#RRGGBB` in hexadecimal digits.
pub open spec fn is_hex_colour(s: Seq<char>) -> bool {
    (s.len() == 4 || s.len() == 7) && s[0] == '#' && forall|i: int|
        1 <= i < s.len() ==> is_hex_digit(#[trigger] s[i])
}

/// The named web colours.
pub open spec fn colour_table() -> Seq<&'static str> {
    seq![
        "aliceblue", "antiquewhite", "aqua", "aquamarine", "azure", "beige", "bisque", "black",
        "blanchedalmond", "blue", "blueviolet", "brown", "burlywood", "cadetblue",
        "chartreuse", "chocolate", "coral", "cornflowerblue", "cornsilk", "crimson", "cyan",
        "darkblue", "darkcyan", "darkgoldenrod", "darkgray", "darkgrey", "darkgreen",
        "darkkhaki", "darkmagenta", "darkolivegreen", "darkorange", "darkorchid", "darkred",
        "darksalmon", "darkseagreen", "darkslateblue", "darkslategray", "darkslategrey",
        "darkturquoise", "darkviolet", "deeppink", "deepskyblue", "dimgray", "dimgrey",
        "dodgerblue", "firebrick", "floralwhite", "forestgreen", "fuchsia", "gainsboro",
        "ghostwhite", "gold", "goldenrod", "gray", "grey", "green", "greenyellow", "honeydew",
        "hotpink", "indianred", "indigo", "ivory", "khaki", "lavender", "lavenderblush",
        "lawngreen", "lemonchiffon", "lightblue", "lightcoral", "lightcyan",
        "lightgoldenrodyellow", "lightgray", "lightgrey", "lightgreen", "lightpink",
        "lightsalmon", "lightseagreen", "lightskyblue", "lightslategray", "lightslategrey",
        "lightsteelblue", "lightyellow", "lime", "limegreen", "linen", "magenta", "maroon",
        "mediumaquamarine", "mediumblue", "mediumorchid", "mediumpurple", "mediumseagreen",
        "mediumslateblue", "mediumspringgreen", "mediumturquoise", "mediumvioletred",
        "midnightblue", "mintcream", "mistyrose", "moccasin", "navajowhite", "navy", "oldlace",
        "olive", "olivedrab", "orange", "orangered", "orchid", "palegoldenrod", "palegreen",
        "paleturquoise", "palevioletred", "papayawhip", "peachpuff", "peru", "pink", "plum",
        "powderblue", "purple", "rebeccapurple", "red", "rosybrown", "royalblue",
        "saddlebrown", "salmon", "sandybrown", "seagreen", "seashell", "sienna", "silver",
        "skyblue", "slateblue", "slategray", "slategrey", "snow", "springgreen", "steelblue",
        "tan", "teal", "thistle", "tomato", "turquoise", "transparent", "violet", "wheat",
        "white", "whitesmoke", "yellow", "yellowgreen",
    ]
}

/// `s` names a web colour, in any letter case.
pub open spec fn is_colour_name(s: Seq<char>) -> bool {
    exists|i: int| 0 <= i < colour_table().len() && same_letters(s, (#[trigger] colour_table()[i])@)
}

/// A colour argument is accepted when it is a hex colour or a colour name.
pub open spec fn valid_colour(s: Seq<char>) -> bool {
    is_hex_colour(s) || is_colour_name(s)
}

fn colour_names() -> (r: Vec<&'static str>)
    ensures
        r@ == colour_table(),
{
    let r = vec![
        "aliceblue", "antiquewhite", "aqua", "aquamarine", "azure", "beige", "bisque", "black",
        "blanchedalmond", "blue", "blueviolet", "brown", "burlywood", "cadetblue",
        "chartreuse", "chocolate", "coral", "cornflowerblue", "cornsilk", "crimson", "cyan",
        "darkblue", "darkcyan", "darkgoldenrod", "darkgray", "darkgrey", "darkgreen",
        "darkkhaki", "darkmagenta", "darkolivegreen", "darkorange", "darkorchid", "darkred",
        "darksalmon", "darkseagreen", "darkslateblue", "darkslategray", "darkslategrey",
        "darkturquoise", "darkviolet", "deeppink", "deepskyblue", "dimgray", "dimgrey",
        "dodgerblue", "firebrick", "floralwhite", "forestgreen", "fuchsia", "gainsboro",
        "ghostwhite", "gold", "goldenrod", "gray", "grey", "green", "greenyellow", "honeydew",
        "hotpink", "indianred", "indigo", "ivory", "khaki", "lavender", "lavenderblush",
        "lawngreen", "lemonchiffon", "lightblue", "lightcoral", "lightcyan",
        "lightgoldenrodyellow", "lightgray", "lightgrey", "lightgreen", "lightpink",
        "lightsalmon", "lightseagreen", "lightskyblue", "lightslategray", "lightslategrey",
        "lightsteelblue", "lightyellow", "lime", "limegreen", "linen", "magenta", "maroon",
        "mediumaquamarine", "mediumblue", "mediumorchid", "mediumpurple", "mediumseagreen",
        "mediumslateblue", "mediumspringgreen", "mediumturquoise", "mediumvioletred",
        "midnightblue", "mintcream", "mistyrose", "moccasin", "navajowhite", "navy", "oldlace",
        "olive", "olivedrab", "orange", "orangered", "orchid", "palegoldenrod", "palegreen",
        "paleturquoise", "palevioletred", "papayawhip", "peachpuff", "peru", "pink", "plum",
        "powderblue", "purple", "rebeccapurple", "red", "rosybrown", "royalblue",
        "saddlebrown", "salmon", "sandybrown", "seagreen", "seashell", "sienna", "silver",
        "skyblue", "slateblue", "slategray", "slategrey", "snow", "springgreen", "steelblue",
        "tan", "teal", "thistle", "tomato", "turquoise", "transparent", "violet", "wheat",
        "white", "whitesmoke", "yellow", "yellowgreen",
    ];
    assert(r@ =~= colour_table());
    r
}

/// Whether a colour argument is accepted.
pub fn is_valid_colour(s: &Vec<char>) -> (r: bool)
    ensures
        r == valid_colour(s@),
{
    if (s.len() == 4 || s.len() == 7) && s[0] == '#' {
        let mut i: usize = 1;
        let mut hex = true;
        while i < s.len()
            invariant
                1 <= i <= s@.len(),
                hex == forall|k: int| 1 <= k < i ==> is_hex_digit(#[trigger] s@[k]),
            decreases s@.len() - i,
        {
            let c = s[i];
            let d = ('0' <= c && c <= '9') || ('a' <= c && c <= 'f') || ('A' <= c && c <= 'F');
            hex = hex && d;
            i = i + 1;
        }
        if hex {
            return true;
        }
    }
    let names = colour_names();
    let mut j: usize = 0;
    while j < names.len()
        invariant
            names@ == colour_table(),
            j <= names@.len(),
            forall|k: int| 0 <= k < j ==> !same_letters(s@, (#[trigger] colour_table()[k])@),
            !is_hex_colour(s@),
        decreases names@.len() - j,
    {
        if is_word_any_case(s, names[j]) {
            return true;
        }
        j = j + 1;
    }
    false
}

/// The link target for a `url` argument: `http://` and `https://` addresses are
/// kept as written, `www.` addresses get `http://` in front, and anything else is
/// refused.
pub open spec fn link_target(s: Seq<char>) -> Option<Seq<char>> {
    if starts_with(s, "https://"@) || starts_with(s, "http://"@) {
        Some(s)
    } else if starts_with(s, "www."@) {
        Some("http://"@ + s)
    } else {
        None
    }
}

/// The accepted image file extensions (`.svg` is left out on purpose).
pub open spec fn image_types() -> Seq<&'static str> {
    seq![".jpg", ".jpeg", ".pjpeg", ".pjp", ".jfif", ".png", ".apng", ".gif", ".bmp", ".webp"]
}

pub open spec fn has_image_type(s: Seq<char>) -> bool {
    exists|i: int| 0 <= i < image_types().len() && ends_with(s, (#[trigger] image_types()[i])@)
}

/// The source of an image: a link target that ends in an accepted extension.
pub open spec fn image_source(s: Seq<char>) -> Option<Seq<char>> {
    if has_image_type(s) {
        link_target(s)
    } else {
        None
    }
}

/// A string holding the characters of `cs`.
pub fn string_of(cs: &Vec<char>) -> (r: String)
    ensures
        r@ == cs@,
{
    let mut r = String::new();
    crate::text::push_chars(&mut r, cs);
    r
}

/// The link target of a `url` argument, if it is accepted.
pub fn url_target(s: &Vec<char>) -> (r: Option<String>)
    ensures
        crate::opt_view(r) == link_target(s@),
{
    proof {
        reveal_strlit("http://");
    }
    if has_prefix(s, "https://") || has_prefix(s, "http://") {
        Some(string_of(s))
    } else if has_prefix(s, "www.") {
        let mut r = String::from_str("http://");
        crate::text::push_chars(&mut r, s);
        Some(r)
    } else {
        None
    }
}

fn image_type_names() -> (r: Vec<&'static str>)
    ensures
        r@ == image_types(),
{
    let r = vec![".jpg", ".jpeg", ".pjpeg", ".pjp", ".jfif", ".png", ".apng", ".gif", ".bmp", ".webp"];
    assert(r@ =~= image_types());
    r
}

/// The source of an image argument, if it is accepted.
pub fn image_target(s: &Vec<char>) -> (r: Option<String>)
    ensures
        crate::opt_view(r) == image_source(s@),
{
    let types = image_type_names();
    let mut j: usize = 0;
    while j < types.len()
        invariant
            types@ == image_types(),
            j <= types@.len(),
            forall|k: int| 0 <= k < j ==> !ends_with(s@, (#[trigger] image_types()[k])@),
        decreases types@.len() - j,
    {
        if has_suffix(s, types[j]) {
            return url_target(s);
        }
        j = j + 1;
    }
    None
}

pub open spec fn is_digit(c: char) -> bool {
    '0' <= c <= '9'
}

pub open spec fn digit_value(c: char) -> nat {
    (c as u32 - '0' as u32) as nat
}

/// The integer part of a number saturates here; every argument this large is
/// clamped anyway.
pub const INT_CAP: u64 = 1_000_000;

/// Fraction digits kept after the point; later digits are dropped.
pub const FRACTION_DIGITS: u64 = 6;

/// Progress through the digits of a decimal number `[digits][.digits]`.
pub struct NumScan {
    pub dot: bool,
    pub int_part: nat,
    pub frac_part: nat,
    pub frac_digits: nat,
    pub digits: nat,
    pub bad: bool,
}

pub open spec fn scan_init() -> NumScan {
    NumScan { dot: false, int_part: 0, frac_part: 0, frac_digits: 0, digits: 0, bad: false }
}

/// One character of a decimal number: digits before the point build the
/// integer part (saturating at `INT_CAP`), the first `FRACTION_DIGITS` digits after
/// it build the fraction, and a second point or any other character makes the
/// number invalid.
pub open spec fn scan_step(st: NumScan, c: char) -> NumScan {
    if st.bad {
        st
    } else if is_digit(c) {
        if !st.dot {
            let v = st.int_part * 10 + digit_value(c);
            NumScan {
                int_part: if v > INT_CAP { INT_CAP as nat } else { v },
                digits: st.digits + 1,
                ..st
            }
        } else if st.frac_digits < FRACTION_DIGITS {
            NumScan {
                frac_part: st.frac_part * 10 + digit_value(c),
                frac_digits: st.frac_digits + 1,
                digits: st.digits + 1,
                ..st
            }
        } else {
            NumScan { digits: st.digits + 1, ..st }
        }
    } else if c == '.' && !st.dot {
        NumScan { dot: true, ..st }
    } else {
        NumScan { bad: true, ..st }
    }
}

pub open spec fn scan(cs: Seq<char>) -> NumScan
    decreases cs.len(),
{
    if cs.len() == 0 {
        scan_init()
    } else {
        scan_step(scan(cs.drop_last()), cs.last())
    }
}

/// `f` with `n` fraction digits, written with `FRACTION_DIGITS` of them.
pub open spec fn pad_fraction(f: nat, n: nat) -> nat
    decreases FRACTION_DIGITS - n,
{
    if n >= FRACTION_DIGITS {
        f
    } else {
        pad_fraction(f * 10, n + 1)
    }
}

pub open spec fn sign_len(s: Seq<char>) -> int {
    if s.len() > 0 && (s[0] == '+' || s[0] == '-') {
        1
    } else {
        0
    }
}

/// A decimal number with an optional sign, as (negative, value in millionths).
pub open spec fn decimal_value(s: Seq<char>) -> Option<(bool, nat)> {
    let st = scan(s.skip(sign_len(s)));
    if st.bad || st.digits == 0 {
        None
    } else {
        Some(
            (
                s.len() > 0 && s[0] == '-',
                st.int_part * 1_000_000 + pad_fraction(st.frac_part, st.frac_digits),
            ),
        )
    }
}

fn digit_of(c: char) -> (r: u64)
    requires
        is_digit(c),
    ensures
        r == digit_value(c),
        r <= 9,
{
    (c as u32 - '0' as u32) as u64
}

/// Parses a decimal number; see `decimal_value`.
pub fn parse_decimal(s: &Vec<char>) -> (r: Option<(bool, u64)>)
    ensures
        match r {
            Some((neg, v)) => decimal_value(s@) == Some((neg, v as nat)) && v < 1_000_001_000_000,
            None => decimal_value(s@) is None,
        },
{
    let start: usize = if s.len() > 0 && (s[0] == '+' || s[0] == '-') {
        1
    } else {
        0
    };
    let neg = s.len() > 0 && s[0] == '-';
    let ghost body = s@.skip(start as int);
    let mut dot = false;
    let mut int_part: u64 = 0;
    let mut frac_part: u64 = 0;
    let mut frac_digits: u64 = 0;
    let mut digits: usize = 0;
    let mut i: usize = start;
    while i < s.len()
        invariant
            start <= i <= s@.len(),
            start == sign_len(s@),
            neg == (s@.len() > 0 && s@[0] == '-'),
            body == s@.skip(start as int),
            scan(body.take(i - start)) == (NumScan {
                dot,
                int_part: int_part as nat,
                frac_part: frac_part as nat,
                frac_digits: frac_digits as nat,
                digits: digits as nat,
                bad: false,
            }),
            int_part <= INT_CAP,
            frac_digits <= FRACTION_DIGITS,
            frac_part < 1_000_000,
            digits <= i,
            frac_digits == 0 ==> frac_part == 0,
            frac_digits == 1 ==> frac_part < 10,
            frac_digits == 2 ==> frac_part < 100,
            frac_digits == 3 ==> frac_part < 1000,
            frac_digits == 4 ==> frac_part < 10000,
            frac_digits == 5 ==> frac_part < 100000,
        decreases s@.len() - i,
    {
        let c = s[i];
        proof {
            assert(body.take(i + 1 - start).drop_last() =~= body.take(i - start));
            assert(body.take(i + 1 - start).last() == c);
        }
        if '0' <= c && c <= '9' {
            let d = digit_of(c);
            if !dot {
                let v = int_part * 10 + d;
                int_part = if v > INT_CAP { INT_CAP } else { v };
            } else if frac_digits < FRACTION_DIGITS {
                frac_part = frac_part * 10 + d;
                frac_digits = frac_digits + 1;
            }
            digits = digits + 1;
        } else if c == '.' && !dot {
            dot = true;
        } else {
            proof {
                assert(scan(body.take(i + 1 - start)).bad);
                lemma_scan_bad_stays(body, (i + 1 - start) as int);
            }
            return None;
        }
        i = i + 1;
    }
    assert(body.take(s@.len() - start) =~= body);
    if digits == 0 {
        return None;
    }
    let mut f = frac_part;
    let mut n = frac_digits;
    while n < FRACTION_DIGITS
        invariant
            n <= FRACTION_DIGITS,
            pad_fraction(f as nat, n as nat) == pad_fraction(frac_part as nat, frac_digits as nat),
            n == 0 ==> f < 1,
            n == 1 ==> f < 10,
            n == 2 ==> f < 100,
            n == 3 ==> f < 1000,
            n == 4 ==> f < 10000,
            n == 5 ==> f < 100000,
            n == 6 ==> f < 1000000,
        decreases FRACTION_DIGITS - n,
    {
        f = f * 10;
        n = n + 1;
    }
    Some((neg, int_part * 1_000_000 + f))
}

/// Once a number is invalid, no later character makes it valid.
proof fn lemma_scan_bad_stays(cs: Seq<char>, k: int)
    requires
        0 <= k <= cs.len(),
        scan(cs.take(k)).bad,
    ensures
        scan(cs).bad,
    decreases cs.len() - k,
{
    if k < cs.len() {
        assert(cs.take(k + 1).drop_last() =~= cs.take(k));
        lemma_scan_bad_stays(cs, k + 1);
    } else {
        assert(cs.take(k) =~= cs);
    }
}

pub open spec fn digit_char(d: nat) -> char {
    if d == 0 {
        '0'
    } else if d == 1 {
        '1'
    } else if d == 2 {
        '2'
    } else if d == 3 {
        '3'
    } else if d == 4 {
        '4'
    } else if d == 5 {
        '5'
    } else if d == 6 {
        '6'
    } else if d == 7 {
        '7'
    } else if d == 8 {
        '8'
    } else {
        '9'
    }
}

/// The last `n` decimal digits of `f`, leading zeros included.
pub open spec fn fixed_digits(f: nat, n: nat) -> Seq<char>
    decreases n,
{
    if n == 0 {
        seq![]
    } else {
        fixed_digits(f / 10, (n - 1) as nat).push(digit_char(f % 10))
    }
}

/// `s` without its trailing zeros.
pub open spec fn strip_zeros(s: Seq<char>) -> Seq<char>
    decreases s.len(),
{
    if s.len() > 0 && s.last() == '0' {
        strip_zeros(s.drop_last())
    } else {
        s
    }
}

/// The decimal text of `v / one`, where `one` is `10^scale` and the whole part
/// is a single digit: the fraction follows a point, without trailing zeros, and
/// is left out when it is zero.
pub open spec fn fixed_text(v: nat, one: nat, scale: nat) -> Seq<char>
    recommends
        one > 0,
{
    let frac = v % one;
    if frac == 0 {
        seq![digit_char(v / one)]
    } else {
        seq![digit_char(v / one), '.'] + strip_zeros(fixed_digits(frac, scale))
    }
}

/// Opacity: a number, or a percentage, clamped to `[0, 1]`. The number is
/// `[sign]digits[.digits]` (see `decimal_value`): exponents, `inf` and `nan`
/// are refused, and fraction digits after the sixth are dropped.
pub open spec fn opacity_value(s: Seq<char>) -> Option<Seq<char>> {
    let pct = s.len() > 0 && s.last() == '%';
    let num = if pct {
        s.drop_last()
    } else {
        s
    };
    match decimal_value(num) {
        None => None,
        Some((neg, micro)) => {
            // in units of 10^-8
            let units = if pct {
                micro
            } else {
                micro * 100
            };
            let v: nat = if neg {
                0
            } else if units > 100_000_000 {
                100_000_000
            } else {
                units
            };
            Some(fixed_text(v, 100_000_000, 8))
        },
    }
}

/// Font size in `rem`: a number of points (divided by 16), or of `em` (kept as it
/// is), clamped to `[0.5, 2]`. The number is `[sign]digits[.digits]` (see
/// `decimal_value`): exponents, `inf` and `nan` are refused, and fraction digits
/// after the sixth are dropped.
pub open spec fn size_value(s: Seq<char>) -> Option<Seq<char>> {
    let em = s.len() >= 2 && s[s.len() - 2] == 'e' && s[s.len() - 1] == 'm';
    let num = if em {
        s.take(s.len() - 2)
    } else {
        s
    };
    match decimal_value(num) {
        None => None,
        Some((neg, micro)) => {
            // in units of 10^-10
            let units = if em {
                micro * 10_000
            } else {
                micro * 625
            };
            let v: nat = if neg || units < 5_000_000_000 {
                5_000_000_000
            } else if units > 20_000_000_000 {
                20_000_000_000
            } else {
                units
            };
            Some(fixed_text(v, 10_000_000_000, 10))
        },
    }
}

fn digit_char_of(d: u64) -> (r: char)
    ensures
        r == digit_char(d as nat),
{
    if d == 0 {
        '0'
    } else if d == 1 {
        '1'
    } else if d == 2 {
        '2'
    } else if d == 3 {
        '3'
    } else if d == 4 {
        '4'
    } else if d == 5 {
        '5'
    } else if d == 6 {
        '6'
    } else if d == 7 {
        '7'
    } else if d == 8 {
        '8'
    } else {
        '9'
    }
}

fn fraction_digits(f: u64, n: u64) -> (r: Vec<char>)
    ensures
        r@ == fixed_digits(f as nat, n as nat),
    decreases n,
{
    if n == 0 {
        Vec::new()
    } else {
        let mut v = fraction_digits(f / 10, n - 1);
        v.push(digit_char_of(f % 10));
        v
    }
}

fn fixed_string(v: u64, one: u64, scale: u64) -> (r: String)
    requires
        one > 0,
    ensures
        r@ == fixed_text(v as nat, one as nat, scale as nat),
{
    let frac = v % one;
    let mut out = String::new();
    out.push(digit_char_of(v / one));
    if frac != 0 {
        out.push('.');
        let mut ds = fraction_digits(frac, scale);
        while ds.len() > 0 && ds[ds.len() - 1] == '0'
            invariant
                strip_zeros(ds@) == strip_zeros(fixed_digits(frac as nat, scale as nat)),
            decreases ds@.len(),
        {
            let ghost prev = ds@;
            ds.pop();
            assert(ds@ =~= prev.drop_last());
        }
        crate::text::push_chars(&mut out, &ds);
        assert(out@ =~= seq![digit_char((v / one) as nat), '.'] + strip_zeros(fixed_digits(frac as nat, scale as nat)));
    } else {
        assert(out@ =~= seq![digit_char((v / one) as nat)]);
    }
    out
}

/// The first `n` characters of `s`.
pub fn take_prefix(s: &Vec<char>, n: usize) -> (r: Vec<char>)
    requires
        n <= s@.len(),
    ensures
        r@ == s@.take(n as int),
{
    let mut r: Vec<char> = Vec::new();
    let mut i: usize = 0;
    while i < n
        invariant
            i <= n <= s@.len(),
            r@ == s@.take(i as int),
        decreases n - i,
    {
        r.push(s[i]);
        i = i + 1;
        assert(r@ =~= s@.take(i as int));
    }
    r
}

/// The CSS opacity for an `opacity` argument, if it is a number.
pub fn opacity_arg(s: &Vec<char>) -> (r: Option<String>)
    ensures
        crate::opt_view(r) == opacity_value(s@),
{
    let pct = s.len() > 0 && s[s.len() - 1] == '%';
    let num = if pct {
        take_prefix(s, s.len() - 1)
    } else {
        take_prefix(s, s.len())
    };
    assert(s@.take(s@.len() as int) =~= s@);
    assert(pct ==> s@.take(s@.len() - 1) =~= s@.drop_last());
    match parse_decimal(&num) {
        None => None,
        Some((neg, micro)) => {
            let units = if pct {
                micro
            } else {
                micro * 100
            };
            let v: u64 = if neg {
                0
            } else if units > 100_000_000 {
                100_000_000
            } else {
                units
            };
            Some(fixed_string(v, 100_000_000, 8))
        },
    }
}

/// The font size in `rem` for a `size` argument, if it is a number.
pub fn size_arg(s: &Vec<char>) -> (r: Option<String>)
    ensures
        crate::opt_view(r) == size_value(s@),
{
    let em = s.len() >= 2 && s[s.len() - 2] == 'e' && s[s.len() - 1] == 'm';
    let num = if em {
        take_prefix(s, s.len() - 2)
    } else {
        take_prefix(s, s.len())
    };
    assert(s@.take(s@.len() as int) =~= s@);
    match parse_decimal(&num) {
        None => None,
        Some((neg, micro)) => {
            let units = if em {
                micro * 10_000
            } else {
                micro * 625
            };
            let v: u64 = if neg || units < 5_000_000_000 {
                5_000_000_000
            } else if units > 20_000_000_000 {
                20_000_000_000
            } else {
                units
            };
            Some(fixed_string(v, 10_000_000_000, 10))
        },
    }
}

/// Ordered list styles: the `type` of an `<ol>`.
pub open spec fn is_ordered_style(s: Seq<char>) -> bool {
    s == "1"@ || s == "a"@ || s == "A"@ || s == "i"@ || s == "I"@
}

/// Bullet styles of an unordered list.
pub open spec fn is_bullet_style(s: Seq<char>) -> bool {
    s == "disc"@ || s == "circle"@ || s == "square"@
}

pub fn is_ordered_list_style(s: &Vec<char>) -> (r: bool)
    ensures
        r == is_ordered_style(s@),
{
    is_word(s, "1") || is_word(s, "a") || is_word(s, "A") || is_word(s, "i") || is_word(s, "I")
}

pub fn is_bullet_list_style(s: &Vec<char>) -> (r: bool)
    ensures
        r == is_bullet_style(s@),
{
    is_word(s, "disc") || is_word(s, "circle") || is_word(s, "square")
}

/// An indent depth: one digit from 1 to 6.
pub open spec fn is_indent_depth(s: Seq<char>) -> bool {
    s.len() == 1 && '1' <= s[0] <= '6'
}

pub fn is_valid_indent(s: &Vec<char>) -> (r: bool)
    ensures
        r == is_indent_depth(s@),
{
    s.len() == 1 && '1' <= s[0] && s[0] <= '6'
}

/// A figure floats to the left or to the right.
pub open spec fn is_figure_side(s: Seq<char>) -> bool {
    s == "left"@ || s == "right"@
}

pub fn is_valid_figure_side(s: &Vec<char>) -> (r: bool)
    ensures
        r == is_figure_side(s@),
{
    is_word(s, "left") || is_word(s, "right")
}

/// Every accepted link target, and so every image source, begins with
/// `http://` or `https://`; any other scheme is refused.
pub proof fn lemma_link_schemes(s: Seq<char>)
    ensures
        link_target(s) is Some ==> starts_with(link_target(s)->0, "http://"@) || starts_with(
            link_target(s)->0,
            "https://"@,
        ),
        image_source(s) is Some ==> link_target(s) is Some && image_source(s) == link_target(s),
        !starts_with(s, "https://"@) && !starts_with(s, "http://"@) && !starts_with(s, "www."@)
            ==> link_target(s) is None && image_source(s) is None,
{
    let p = "http://"@;
    if !starts_with(s, "https://"@) && !starts_with(s, "http://"@) && starts_with(s, "www."@) {
        assert((p + s).take(p.len() as int) =~= p);
    }
}

} // verus!
