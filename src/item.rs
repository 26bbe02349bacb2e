//! Items, the raw form that edits them, and the rules that validate the form.

use vstd::prelude::*;

verus! {

/// A code point of Unicode's `White_Space` property, the set that
/// `char::is_whitespace` and `str::trim` use.
pub open spec fn is_space(c: char) -> bool {
    let u = c as u32;
    ||| 0x09 <= u <= 0x0d
    ||| u == 0x20
    ||| u == 0x85
    ||| u == 0xa0
    ||| u == 0x1680
    ||| 0x2000 <= u <= 0x200a
    ||| u == 0x2028
    ||| u == 0x2029
    ||| u == 0x202f
    ||| u == 0x205f
    ||| u == 0x3000
}

/// A text that is empty once trimmed: every character is white space.
pub open spec fn is_blank(s: Seq<char>) -> bool {
    forall|i: int| 0 <= i < s.len() ==> is_space(#[trigger] s[i])
}

/// Whether `c` is a white-space character.
pub fn space_char(c: char) -> (r: bool)
    ensures
        r == is_space(c),
{
    let u = c as u32;
    (0x09 <= u && u <= 0x0d) || u == 0x20 || u == 0x85 || u == 0xa0 || u == 0x1680
        || (0x2000 <= u && u <= 0x200a) || u == 0x2028 || u == 0x2029 || u == 0x202f
        || u == 0x205f || u == 0x3000
}

/// Whether `s` is empty once trimmed.
pub fn blank(s: &str) -> (r: bool)
    ensures
        r == is_blank(s@),
{
    let n = s.unicode_len();
    let mut i: usize = 0;
    while i < n
        invariant
            n == s@.len(),
            i <= n,
            forall|j: int| 0 <= j < i ==> is_space(#[trigger] s@[j]),
        decreases n - i,
    {
        if !space_char(s.get_char(i)) {
            return false;
        }
        i = i + 1;
    }
    true
}


/// A decimal digit.
pub open spec fn is_digit(c: char) -> bool {
    '0' <= c && c <= '9'
}

/// The value of a digit character.
pub open spec fn digit_of(c: char) -> nat {
    (c as u32 - '0' as u32) as nat
}

pub open spec fn all_digits(s: Seq<char>) -> bool {
    forall|i: int| 0 <= i < s.len() ==> is_digit(#[trigger] s[i])
}

/// The number that a run of decimal digits writes, most significant first.
pub open spec fn digits_value(s: Seq<char>) -> nat
    decreases s.len(),
{
    if s.len() == 0 {
        0
    } else {
        digits_value(s.drop_last()) * 10 + digit_of(s.last())
    }
}

/// Where the first `.` of `s` stands, or `s.len()` where there is none.
pub open spec fn point_index(s: Seq<char>) -> nat
    decreases s.len(),
{
    if s.len() == 0 {
        0
    } else if s[0] == '.' {
        0
    } else {
        1 + point_index(s.skip(1))
    }
}

/// The digits before the decimal point.
pub open spec fn whole_part(s: Seq<char>) -> Seq<char> {
    s.take(point_index(s) as int)
}

/// The digits after the decimal point (none where there is no point).
pub open spec fn frac_part(s: Seq<char>) -> Seq<char> {
    if point_index(s) < s.len() {
        s.skip(point_index(s) + 1int)
    } else {
        Seq::empty()
    }
}

/// The significant digits of a price text: all its digits, point left out.
pub open spec fn mantissa_digits(s: Seq<char>) -> Seq<char> {
    whole_part(s) + frac_part(s)
}

/// A price text: digits, with at most one decimal point among them and at
/// least one digit, no sign, no white space; its digits read as one integer
/// fit in 64 bits.  `"3.25"`, `"10"`, `".5"` and `"7."` are prices; `""`,
/// `"abc"`, `"-1"` and `"1.2.3"` are not.
pub open spec fn is_price_text(s: Seq<char>) -> bool {
    &&& all_digits(whole_part(s))
    &&& all_digits(frac_part(s))
    &&& mantissa_digits(s).len() > 0
    &&& digits_value(mantissa_digits(s)) <= u64::MAX
}

/// A non-negative decimal number: `units / 10^scale`.
#[derive(Clone, Copy, Debug, PartialEq, Eq, Structural)]
pub struct Price {
    pub units: u64,
    pub scale: usize,
}

/// The price that a price text writes, its digits and scale as written
/// (`"3.250"` has units 3250 and scale 3).
pub open spec fn price_of(s: Seq<char>) -> Price {
    Price { units: digits_value(mantissa_digits(s)) as u64, scale: frac_part(s).len() as usize }
}

proof fn lemma_point_index(s: Seq<char>, k: int)
    requires
        0 <= k <= s.len(),
        forall|j: int| 0 <= j < k ==> s[j] != '.',
        k == s.len() || s[k] == '.',
    ensures
        point_index(s) == k,
    decreases s.len(),
{
    if s.len() > 0 && k > 0 {
        let t = s.skip(1);
        assert forall|j: int| 0 <= j < k - 1 implies t[j] != '.' by {
            assert(t[j] == s[j + 1]);
        }
        if k - 1 < t.len() {
            assert(t[k - 1] == s[k]);
        }
        lemma_point_index(t, k - 1);
    }
}

/// The character's digit value.
fn digit_value(c: char) -> (d: u64)
    requires
        is_digit(c),
    ensures
        d == digit_of(c),
{
    (c as u32 - '0' as u32) as u64
}

/// Reads a price text; `None` where `s` is not one.
pub fn parse_price(s: &str) -> (r: Option<Price>)
    ensures
        r == (if is_price_text(s@) {
            Some(price_of(s@))
        } else {
            None::<Price>
        }),
{
    let n = s.unicode_len();
    let ghost t = s@;
    let mut k: usize = 0;
    while k < n && s.get_char(k) != '.'
        invariant
            n == t.len(),
            t == s@,
            k <= n,
            forall|j: int| 0 <= j < k ==> t[j] != '.',
        decreases n - k,
    {
        k = k + 1;
    }
    proof {
        lemma_point_index(t, k as int);
    }
    let ghost whole = whole_part(t);
    let ghost frac = frac_part(t);
    assert(whole == t.take(k as int));
    let mut units: u64 = 0;
    let mut over = false;
    let mut count: usize = 0;
    let ghost mut acc: Seq<char> = Seq::empty();
    let mut j: usize = 0;
    while j < n
        invariant
            n == t.len(),
            t == s@,
            k <= n,
            k as int == point_index(t),
            whole == whole_part(t),
            frac == frac_part(t),
            j <= n,
            k < n ==> j != k + 1 || acc == whole,
            j <= k ==> acc == t.take(j as int),
            k < j ==> acc == whole + t.subrange(k + 1, j as int),
            all_digits(acc),
            count == acc.len(),
            !over ==> units == digits_value(acc),
            over ==> digits_value(acc) > u64::MAX,
        decreases n - j,
    {
        if j == k {
            j = j + 1;
            assert(t.subrange(k + 1, j as int) =~= Seq::<char>::empty());
            assert(acc == whole + t.subrange(k + 1, j as int));
        } else {
            let c = s.get_char(j);
            if !('0' <= c && c <= '9') {
                proof {
                    if j < k {
                        assert(whole[j as int] == c);
                    } else {
                        assert(frac[j - k - 1] == c);
                    }
                }
                return None;
            }
            let d = digit_value(c);
            let ghost next = acc.push(c);
            assert(next.drop_last() =~= acc);
            if !over {
                if units <= (u64::MAX - d) / 10 {
                    assert(units * 10 + d <= u64::MAX) by (nonlinear_arith)
                        requires
                            units <= (u64::MAX - d) / 10,
                            d <= 9,
                    ;
                    units = units * 10 + d;
                } else {
                    assert(units * 10 + d > u64::MAX) by (nonlinear_arith)
                        requires
                            units > (u64::MAX - d) / 10,
                            d <= 9,
                    ;
                    over = true;
                }
            } else {
                assert(digits_value(acc) * 10 + d > u64::MAX) by (nonlinear_arith)
                    requires
                        digits_value(acc) > u64::MAX,
                ;
            }
            proof {
                if j < k {
                    assert(next =~= t.take(j + 1));
                } else {
                    assert(next =~= whole + t.subrange(k + 1, j + 1));
                }
                acc = next;
            }
            count = count + 1;
            j = j + 1;
        }
    }
    proof {
        if k < n {
            assert(t.subrange(k + 1, n as int) =~= frac);
        } else {
            assert(whole =~= t);
            assert(frac =~= Seq::<char>::empty());
            assert(whole + frac =~= whole);
        }
        assert(acc =~= mantissa_digits(t));
    }
    if over || count == 0 {
        return None;
    }
    let scale: usize = if k < n { n - k - 1 } else { 0 };
    proof {
        assert(frac.len() == scale as int);
        assert(all_digits(whole)) by {
            assert forall|i: int| 0 <= i < whole.len() implies is_digit(#[trigger] whole[i]) by {
                assert(whole[i] == acc[i]);
            }
        }
        assert(all_digits(frac)) by {
            assert forall|i: int| 0 <= i < frac.len() implies is_digit(#[trigger] frac[i]) by {
                assert(frac[i] == acc[whole.len() + i]);
            }
        }
    }
    Some(Price { units, scale })
}


/// The character of a digit value below ten.
pub open spec fn digit_char(d: nat) -> char {
    seq!['0', '1', '2', '3', '4', '5', '6', '7', '8', '9'][d as int]
}

/// The decimal digits of `n`, without leading zeros (`"0"` for zero).
pub open spec fn decimal_digits(n: nat) -> Seq<char>
    decreases n,
{
    if n < 10 {
        seq![digit_char(n)]
    } else {
        decimal_digits(n / 10).push(digit_char(n % 10))
    }
}

/// `d` with zeros in front up to `width` characters.
pub open spec fn zero_padded(d: Seq<char>, width: nat) -> Seq<char> {
    if d.len() < width {
        Seq::new((width - d.len()) as nat, |i: int| '0') + d
    } else {
        d
    }
}

/// How a price is written: its units in decimal, with at least one digit
/// before the point, and the last `scale` digits after a point
/// (units 325 at scale 2: `"3.25"`; units 5 at scale 3: `"0.005"`).
pub open spec fn price_text(p: Price) -> Seq<char> {
    let d = zero_padded(decimal_digits(p.units as nat), p.scale as nat + 1);
    if p.scale == 0 {
        d
    } else {
        d.take(d.len() - p.scale) + seq!['.'] + d.skip(d.len() - p.scale)
    }
}

fn digit_to_char(d: u64) -> (c: char)
    requires
        d < 10,
    ensures
        c == digit_char(d as nat),
        is_digit(c),
{
    match d {
        0 => '0',
        1 => '1',
        2 => '2',
        3 => '3',
        4 => '4',
        5 => '5',
        6 => '6',
        7 => '7',
        8 => '8',
        _ => '9',
    }
}

/// A one-character text for a digit or the decimal point.
fn char_text(c: char) -> (r: &'static str)
    requires
        is_digit(c) || c == '.',
    ensures
        r@ == seq![c],
{
    proof {
        reveal_strlit("0");
        reveal_strlit("1");
        reveal_strlit("2");
        reveal_strlit("3");
        reveal_strlit("4");
        reveal_strlit("5");
        reveal_strlit("6");
        reveal_strlit("7");
        reveal_strlit("8");
        reveal_strlit("9");
        reveal_strlit(".");
    }
    let r = if c == '0' {
        "0"
    } else if c == '1' {
        "1"
    } else if c == '2' {
        "2"
    } else if c == '3' {
        "3"
    } else if c == '4' {
        "4"
    } else if c == '5' {
        "5"
    } else if c == '6' {
        "6"
    } else if c == '7' {
        "7"
    } else if c == '8' {
        "8"
    } else if c == '9' {
        "9"
    } else {
        "."
    };
    assert(r@ =~= seq![c]);
    r
}

/// The decimal digits of `n`.
fn decimal_digits_of(n: u64) -> (r: Vec<char>)
    ensures
        r@ == decimal_digits(n as nat),
        all_digits(r@),
{
    let mut m: u64 = n;
    let mut tail: Vec<char> = Vec::new();
    while m >= 10
        invariant
            decimal_digits(n as nat) == decimal_digits(m as nat) + tail@,
            all_digits(tail@),
        decreases m,
    {
        let c = digit_to_char(m % 10);
        let ghost old_tail = tail@;
        tail.insert(0, c);
        assert(tail@ =~= seq![c] + old_tail);
        assert(decimal_digits(m as nat) == decimal_digits((m / 10) as nat).push(c));
        assert(decimal_digits(m as nat) + old_tail =~= decimal_digits((m / 10) as nat) + tail@);
        m = m / 10;
    }
    let c = digit_to_char(m);
    let ghost old_tail = tail@;
    tail.insert(0, c);
    assert(tail@ =~= seq![c] + old_tail);
    assert(decimal_digits(m as nat) == seq![c]);
    assert(tail@ =~= decimal_digits(n as nat));
    tail
}

impl Price {
    /// The price as written in the item form.
    pub fn to_text(&self) -> (r: String)
        ensures
            r@ == price_text(*self),
    {
        let digits = decimal_digits_of(self.units);
        let ghost dd = decimal_digits(self.units as nat);
        let mut d: Vec<char> = Vec::new();
        if digits.len() <= self.scale {
            let pad: usize = self.scale - digits.len() + 1;
            let mut i: usize = 0;
            while i < pad
                invariant
                    i <= pad,
                    d@ == Seq::new(i as nat, |k: int| '0'),
                decreases pad - i,
            {
                d.push('0');
                i = i + 1;
                assert(d@ =~= Seq::new(i as nat, |k: int| '0'));
            }
        }
        let ghost zeros = d@;
        let mut j: usize = 0;
        while j < digits.len()
            invariant
                j <= digits@.len(),
                digits@ == dd,
                all_digits(dd),
                all_digits(zeros),
                d@ == zeros + dd.take(j as int),
            decreases digits@.len() - j,
        {
            d.push(digits[j]);
            j = j + 1;
            assert(d@ =~= zeros + dd.take(j as int));
        }
        assert(dd.take(dd.len() as int) =~= dd);
        let ghost pd = zero_padded(dd, self.scale as nat + 1);
        assert(d@ =~= pd);
        assert(all_digits(d@)) by {
            assert forall|k: int| 0 <= k < d@.len() implies is_digit(#[trigger] d@[k]) by {
                if k < zeros.len() {
                    assert(d@[k] == zeros[k]);
                } else {
                    assert(d@[k] == dd[k - zeros.len()]);
                }
            }
        }
        let len = d.len();
        let cut: usize = len - self.scale;
        let mut r = String::new();
        let mut i: usize = 0;
        while i < len
            invariant
                d@ == pd,
                all_digits(pd),
                len == pd.len(),
                len > self.scale,
                cut == len - self.scale,
                i <= len,
                i <= cut ==> r@ == pd.take(i as int),
                i > cut ==> r@ == pd.take(cut as int) + seq!['.'] + pd.subrange(cut as int, i as int),
            decreases len - i,
        {
            if self.scale > 0 && i == cut {
                r.append(char_text('.'));
                assert(r@ =~= pd.take(cut as int) + seq!['.'] + pd.subrange(cut as int, i as int));
            }
            let c = d[i];
            r.append(char_text(c));
            proof {
                if i < cut || self.scale == 0 {
                    assert(r@ =~= pd.take(i + 1));
                } else {
                    assert(r@ =~= pd.take(cut as int) + seq!['.'] + pd.subrange(cut as int, i + 1));
                }
            }
            i = i + 1;
        }
        proof {
            if self.scale == 0 {
                assert(pd.take(len as int) =~= pd);
            } else {
                assert(pd.subrange(cut as int, len as int) =~= pd.skip(cut as int));
            }
        }
        r
    }
}

proof fn lemma_digit_char(n: nat)
    requires
        n < 10,
    ensures
        is_digit(digit_char(n)),
        digit_of(digit_char(n)) == n,
{
    let ds = seq!['0', '1', '2', '3', '4', '5', '6', '7', '8', '9'];
    assert(ds[0] == '0' && ds[1] == '1' && ds[2] == '2' && ds[3] == '3' && ds[4] == '4');
    assert(ds[5] == '5' && ds[6] == '6' && ds[7] == '7' && ds[8] == '8' && ds[9] == '9');
}

proof fn lemma_decimal_digits(n: nat)
    ensures
        all_digits(decimal_digits(n)),
        decimal_digits(n).len() > 0,
        digits_value(decimal_digits(n)) == n,
    decreases n,
{
    lemma_digit_char(n % 10);
    if n < 10 {
        let d = decimal_digits(n);
        assert(n % 10 == n);
        assert(d.last() == digit_char(n));
        assert(d.drop_last() =~= Seq::<char>::empty());
        assert(digits_value(d.drop_last()) == 0);
    } else {
        lemma_decimal_digits(n / 10);
        let d = decimal_digits(n);
        assert(d.drop_last() =~= decimal_digits(n / 10));
        assert(d.last() == digit_char(n % 10));
        assert(digits_value(d) == (n / 10) * 10 + n % 10);
        assert(all_digits(d)) by {
            assert forall|i: int| 0 <= i < d.len() implies is_digit(#[trigger] d[i]) by {
                if i < d.len() - 1 {
                    assert(d[i] == decimal_digits(n / 10)[i]);
                }
            }
        }
    }
}

proof fn lemma_leading_zeros(z: Seq<char>, d: Seq<char>)
    requires
        forall|i: int| 0 <= i < z.len() ==> z[i] == '0',
    ensures
        digits_value(z + d) == digits_value(d),
    decreases z.len() + d.len(),
{
    if d.len() == 0 {
        assert(z + d =~= z);
        if z.len() > 0 {
            assert(z.drop_last() + d =~= z.drop_last());
            lemma_leading_zeros(z.drop_last(), d);
        }
    } else {
        assert((z + d).drop_last() =~= z + d.drop_last());
        lemma_leading_zeros(z, d.drop_last());
    }
}

proof fn lemma_padded_digits(p: Price)
    ensures
        all_digits(zero_padded(decimal_digits(p.units as nat), p.scale as nat + 1)),
        zero_padded(decimal_digits(p.units as nat), p.scale as nat + 1).len() > p.scale,
        digits_value(zero_padded(decimal_digits(p.units as nat), p.scale as nat + 1))
            == p.units,
{
    let dd = decimal_digits(p.units as nat);
    lemma_decimal_digits(p.units as nat);
    let w = p.scale as nat + 1;
    let pd = zero_padded(dd, w);
    let zeros = if dd.len() < w {
        Seq::new((w - dd.len()) as nat, |i: int| '0')
    } else {
        Seq::<char>::empty()
    };
    assert(pd =~= zeros + dd);
    lemma_leading_zeros(zeros, dd);
    assert forall|i: int| 0 <= i < pd.len() implies is_digit(#[trigger] pd[i]) by {
        if i >= zeros.len() {
            assert(pd[i] == dd[i - zeros.len()]);
        }
    }
}

/// Writing a price and reading the text back gives the same price.
pub proof fn lemma_price_text_round_trip(p: Price)
    ensures
        is_price_text(price_text(p)),
        price_of(price_text(p)) == p,
{
    let pd = zero_padded(decimal_digits(p.units as nat), p.scale as nat + 1);
    lemma_padded_digits(p);
    let t = price_text(p);
    if p.scale == 0 {
        assert(t == pd);
        assert forall|j: int| 0 <= j < t.len() implies t[j] != '.' by {
            assert(is_digit(pd[j]));
        }
        lemma_point_index(t, t.len() as int);
        assert(whole_part(t) =~= pd);
        assert(frac_part(t) =~= Seq::<char>::empty());
        assert(mantissa_digits(t) =~= pd);
    } else {
        let cut = pd.len() - p.scale;
        let a = pd.take(cut);
        let b = pd.skip(cut);
        assert(t == a + seq!['.'] + b);
        assert(t[cut] == '.');
        assert forall|j: int| 0 <= j < cut implies t[j] != '.' by {
            assert(t[j] == pd[j]);
            assert(is_digit(pd[j]));
        }
        lemma_point_index(t, cut);
        assert(whole_part(t) =~= a);
        assert(frac_part(t) =~= b);
        assert(mantissa_digits(t) =~= pd);
        assert forall|i: int| 0 <= i < a.len() implies is_digit(#[trigger] a[i]) by {
            assert(a[i] == pd[i]);
        }
        assert forall|i: int| 0 <= i < b.len() implies is_digit(#[trigger] b[i]) by {
            assert(b[i] == pd[cut + i]);
        }
    }
}

/// What can be wrong with a submitted item form.
#[derive(Clone, Copy, Debug, PartialEq, Eq, Structural)]
pub enum ItemValidationErr {
    /// The name is empty or white space only.
    InvalidName,
    /// The price is not a price text.
    InvalidPrice,
}

impl ItemValidationErr {
    /// The sentence that tells the user of the problem.
    pub fn message(&self) -> (r: &'static str)
        ensures
            *self == ItemValidationErr::InvalidName ==> r@ == "Name is required"@,
            *self == ItemValidationErr::InvalidPrice ==> r@ == "Invalid Price"@,
    {
        match self {
            ItemValidationErr::InvalidName => "Name is required",
            ItemValidationErr::InvalidPrice => "Invalid Price",
        }
    }
}

/// A priced inventory record.
#[derive(Clone, Debug)]
pub struct Item {
    pub id: u64,
    pub name: String,
    pub price: Price,
}

impl Item {
    pub fn new(id: u64, name: String, price: Price) -> (r: Item)
        ensures
            r.id == id,
            r.name@ == name@,
            r.price == price,
    {
        Item { id, name, price }
    }
}

impl Default for Item {
    /// The item of a creation: identifier 0, no name, price 0.
    fn default() -> (r: Item)
        ensures
            r.id == 0,
            r.name@ == Seq::<char>::empty(),
            r.price == (Price { units: 0, scale: 0 }),
    {
        Item { id: 0, name: String::new(), price: Price { units: 0, scale: 0 } }
    }
}

/// The two fields of the item form, as the user typed them.
#[derive(Debug)]
pub struct ItemFormData {
    pub name: String,
    pub price: String,
}

/// The problems of a form, the name's before the price's.
pub open spec fn validation_errors(name: Seq<char>, price: Seq<char>) -> Seq<ItemValidationErr> {
    (if is_blank(name) {
        seq![ItemValidationErr::InvalidName]
    } else {
        Seq::empty()
    }) + (if is_price_text(price) {
        Seq::empty()
    } else {
        seq![ItemValidationErr::InvalidPrice]
    })
}

impl ItemFormData {
    pub fn new(name: String, price: String) -> (r: ItemFormData)
        ensures
            r.name@ == name@,
            r.price@ == price@,
    {
        ItemFormData { name, price }
    }

    /// Checks both fields in one pass: the price that the form writes, or
    /// every problem found, in field order.
    pub fn validate(&self) -> (r: Result<Price, Vec<ItemValidationErr>>)
        ensures
            match r {
                Ok(p) => validation_errors(self.name@, self.price@).len() == 0
                    && p == price_of(self.price@),
                Err(e) => e@ == validation_errors(self.name@, self.price@)
                    && e@.len() > 0,
            },
    {
        let mut errors: Vec<ItemValidationErr> = Vec::new();
        if blank(self.name.as_str()) {
            errors.push(ItemValidationErr::InvalidName);
        }
        let price = parse_price(self.price.as_str());
        if price.is_none() {
            errors.push(ItemValidationErr::InvalidPrice);
        }
        assert(errors@ =~= validation_errors(self.name@, self.price@));
        match price {
            Some(p) => {
                if errors.len() == 0 {
                    Ok(p)
                } else {
                    Err(errors)
                }
            },
            None => Err(errors),
        }
    }

    /// The item that saving this form over `current` gives: `current`'s
    /// identifier with the form's name and price; or the form's problems.
    pub fn to_item(&self, current: &Item) -> (r: Result<Item, Vec<ItemValidationErr>>)
        ensures
            match r {
                Ok(item) => validation_errors(self.name@, self.price@).len() == 0
                    && item.id == current.id
                    && item.name@ == self.name@
                    && item.price == price_of(self.price@),
                Err(e) => e@ == validation_errors(self.name@, self.price@)
                    && e@.len() > 0,
            },
    {
        match self.validate() {
            Ok(price) => Ok(Item { id: current.id, name: self.name.clone(), price }),
            Err(e) => Err(e),
        }
    }
}

/// A name that is empty or white space only is reported, whatever the price.
pub proof fn lemma_blank_name_reported(name: Seq<char>, price: Seq<char>)
    requires
        is_blank(name),
    ensures
        validation_errors(name, price).contains(ItemValidationErr::InvalidName),
{
    assert(validation_errors(name, price)[0] == ItemValidationErr::InvalidName);
}

/// A price that is not a price text (empty, not a number, or negative) is
/// reported, whatever the name.
pub proof fn lemma_bad_price_reported(name: Seq<char>, price: Seq<char>)
    requires
        !is_price_text(price),
    ensures
        validation_errors(name, price).contains(ItemValidationErr::InvalidPrice),
{
    let e = validation_errors(name, price);
    assert(e[e.len() - 1] == ItemValidationErr::InvalidPrice);
}

/// A form with a name that is not blank and a price text has no problem.
pub proof fn lemma_valid_form_accepted(name: Seq<char>, price: Seq<char>)
    requires
        !is_blank(name),
        is_price_text(price),
    ensures
        validation_errors(name, price) == Seq::<ItemValidationErr>::empty(),
{
    assert(validation_errors(name, price) =~= Seq::<ItemValidationErr>::empty());
}

/// The problems of a form depend on its two texts alone, and come in one
/// fixed order: the name's, then the price's; each at most once.
pub proof fn lemma_errors_ordered(
    name: Seq<char>,
    price: Seq<char>,
    name2: Seq<char>,
    price2: Seq<char>,
)
    requires
        name == name2,
        price == price2,
    ensures
        validation_errors(name, price) == validation_errors(name2, price2),
        validation_errors(name, price).len() <= 2,
        validation_errors(name, price).len() == 2 ==> validation_errors(name, price)
            == seq![ItemValidationErr::InvalidName, ItemValidationErr::InvalidPrice],
{
    if is_blank(name) && !is_price_text(price) {
        assert(validation_errors(name, price) =~= seq![
            ItemValidationErr::InvalidName,
            ItemValidationErr::InvalidPrice,
        ]);
    }
}

} // verus!
