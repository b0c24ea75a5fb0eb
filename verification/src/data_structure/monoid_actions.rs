//! Ready-made operation sets for
//! [`LazyReversibleRbst`](crate::data_structure::lazy_reversible_rbst::LazyReversibleRbst):
//! range addition and range affine maps over `i64` sums, with two's-complement
//! wrapping arithmetic so that the monoid and action laws hold for every
//! input, and text concatenation with a case-flipping action.
use crate::data_structure::lazy_reversible_rbst::LazyReversibleRbstSpec;
use crate::math::base_conversion::{chars_of, string_from_chars};
use vstd::arithmetic::div_mod::{lemma_add_mod_noop, lemma_mul_mod_noop};
use vstd::prelude::*;

verus! {

/// The modulus of 64-bit two's-complement arithmetic.
pub open spec fn modulus() -> int {
    0x1_0000_0000_0000_0000
}

/// The `i64` congruent to `x` modulo 2^64, which is what wrapping
/// arithmetic produces for the exact result `x`.
pub open spec fn wrap(x: int) -> i64 {
    vstd::wrapping::i64_specs::signed_crop(x)
}

/// `wrap(x)` is congruent to `x`.
pub proof fn lemma_wrap_congruent(x: int)
    ensures
        (wrap(x) as int) % modulus() == x % modulus(),
{
    let r = x % modulus();
    assert(0 <= r < modulus());
    if r > i64::MAX as int {
        assert(wrap(x) as int == r - modulus());
        assert((r - modulus()) % modulus() == r) by {
            vstd::arithmetic::div_mod::lemma_mod_sub_multiples_vanish(r, modulus());
            vstd::arithmetic::div_mod::lemma_small_mod(r as nat, modulus() as nat);
        }
    } else {
        assert(wrap(x) as int == r);
        vstd::arithmetic::div_mod::lemma_small_mod(r as nat, modulus() as nat);
    }
}

/// Congruent integers wrap to the same `i64`.
pub proof fn lemma_wrap_eq(x: int, y: int)
    requires
        x % modulus() == y % modulus(),
    ensures
        wrap(x) == wrap(y),
{
}

/// An integer that already fits in `i64` wraps to itself.
pub proof fn lemma_wrap_exact(x: i64)
    ensures
        wrap(x as int) == x,
{
    let m = modulus();
    if x >= 0 {
        vstd::arithmetic::div_mod::lemma_small_mod(x as nat, m as nat);
    } else {
        assert((x + m) % m == x + m) by {
            vstd::arithmetic::div_mod::lemma_small_mod((x + m) as nat, m as nat);
        }
        assert((x as int) % m == (x + m) % m) by {
            vstd::arithmetic::div_mod::lemma_mod_add_multiples_vanish(x as int, m);
        }
    }
}

/// Congruence is preserved by addition.
pub proof fn lemma_congruent_add(a: int, a2: int, b: int, b2: int)
    requires
        a % modulus() == a2 % modulus(),
        b % modulus() == b2 % modulus(),
    ensures
        (a + b) % modulus() == (a2 + b2) % modulus(),
{
    lemma_add_mod_noop(a, b, modulus());
    lemma_add_mod_noop(a2, b2, modulus());
}

/// Congruence is preserved by multiplication.
pub proof fn lemma_congruent_mul(a: int, a2: int, b: int, b2: int)
    requires
        a % modulus() == a2 % modulus(),
        b % modulus() == b2 % modulus(),
    ensures
        (a * b) % modulus() == (a2 * b2) % modulus(),
{
    lemma_mul_mod_noop(a, b, modulus());
    lemma_mul_mod_noop(a2, b2, modulus());
}

fn add_wrapping(a: i64, b: i64) -> (r: i64)
    ensures
        r == wrap(a + b),
{
    let r = a.wrapping_add(b);
    proof {
        let m = modulus();
        let s = a + b;
        if s > i64::MAX {
            lemma_wrap_exact(r);
            assert(r as int == s - m);
            vstd::arithmetic::div_mod::lemma_mod_add_multiples_vanish(s - m, m);
            lemma_wrap_eq(s - m, s);
        } else if s < i64::MIN {
            lemma_wrap_exact(r);
            assert(r as int == s + m);
            vstd::arithmetic::div_mod::lemma_mod_add_multiples_vanish(s, m);
            lemma_wrap_eq(s + m, s);
        } else {
            lemma_wrap_exact(r);
        }
    }
    r
}

fn mul_wrapping(a: i64, b: i64) -> (r: i64)
    ensures
        r == wrap(a * b),
{
    a.wrapping_mul(b)
}

fn len_as_i64(len: usize) -> (r: i64)
    ensures
        (r as int) % modulus() == (len as int) % modulus(),
{
    let wide = len as u64;
    if wide <= 0x7fff_ffff_ffff_ffffu64 {
        wide as i64
    } else {
        let high = wide - 0x8000_0000_0000_0000u64;
        let r = (high as i64) + i64::MIN;
        proof {
            assert(r as int == len as int - modulus());
            vstd::arithmetic::div_mod::lemma_mod_add_multiples_vanish(len as int - modulus(), modulus());
        }
        r
    }
}

/// Range addition over range sums: values are summed, actions add a
/// constant to every element of a range.
pub struct RangeAddRangeSum;

impl LazyReversibleRbstSpec for RangeAddRangeSum {
    type Value = i64;

    type Action = i64;

    open spec fn identity_spec() -> i64 {
        0
    }

    open spec fn combine_spec(left: i64, right: i64) -> i64 {
        wrap(left + right)
    }

    open spec fn apply_spec(action: i64, value: i64, len: nat) -> i64 {
        wrap(value + action * len)
    }

    open spec fn compose_spec(new: i64, old: i64) -> i64 {
        wrap(new + old)
    }

    proof fn lemma_combine_associative(a: i64, b: i64, c: i64) {
        let m = modulus();
        lemma_wrap_congruent(a + b);
        lemma_wrap_congruent(b + c);
        lemma_congruent_add(wrap(a + b) as int, a + b, c as int, c as int);
        lemma_congruent_add(a as int, a as int, wrap(b + c) as int, b + c);
        assert((a + b) + c == a + (b + c));
        lemma_wrap_eq(wrap(a + b) + c, a + wrap(b + c));
    }

    proof fn lemma_identity(a: i64) {
        lemma_wrap_exact(a);
        assert(0 + a == a as int);
        assert(a + 0 == a as int);
    }

    proof fn lemma_apply_distributes(action: i64, x: i64, y: i64, x_len: nat, y_len: nat) {
        let xy = wrap(x + y);
        let ax = wrap(x + action * x_len);
        let ay = wrap(y + action * y_len);
        lemma_wrap_congruent(x + y);
        lemma_wrap_congruent(x + action * x_len);
        lemma_wrap_congruent(y + action * y_len);
        lemma_congruent_add(xy as int, x + y, action * (x_len + y_len), action * (x_len + y_len));
        lemma_congruent_add(ax as int, x + action * x_len, ay as int, y + action * y_len);
        assert(x + y + action * (x_len + y_len) == (x + action * x_len) + (y + action * y_len))
            by (nonlinear_arith);
        lemma_wrap_eq(xy + action * (x_len + y_len), ax + ay);
    }

    proof fn lemma_apply_compose(new: i64, old: i64, x: i64, len: nat) {
        let c = wrap(new + old);
        let inner = wrap(x + old * len);
        lemma_wrap_congruent(new + old);
        lemma_wrap_congruent(x + old * len);
        lemma_congruent_mul(c as int, new + old, len as int, len as int);
        lemma_congruent_add(x as int, x as int, c * len, (new + old) * len);
        lemma_congruent_add(inner as int, x + old * len, new * len, new * len);
        assert(x + (new + old) * len == (x + old * len) + new * len) by (nonlinear_arith);
        lemma_wrap_eq(x + c * len, inner + new * len);
    }

    proof fn lemma_value_clone(a: i64, b: i64) {
    }

    proof fn lemma_action_clone(a: i64, b: i64) {
    }

    fn identity() -> (r: i64) {
        0
    }

    fn combine(left: &i64, right: &i64) -> (r: i64) {
        add_wrapping(*left, *right)
    }

    fn apply(action: &i64, value: &i64, len: usize) -> (r: i64) {
        let l = len_as_i64(len);
        let product = mul_wrapping(*action, l);
        let r = add_wrapping(*value, product);
        proof {
            lemma_wrap_congruent(action * l);
            lemma_congruent_mul(*action as int, *action as int, l as int, len as int);
            lemma_congruent_add(*value as int, *value as int, product as int, action * len);
            lemma_wrap_eq(value + product, value + action * len);
        }
        r
    }

    fn compose(new: &i64, old: &i64) -> (r: i64) {
        add_wrapping(*new, *old)
    }
}

/// The affine map `x -> multiplier * x + constant`.
#[derive(Clone, Copy, Debug)]
pub struct Affine {
    pub multiplier: i64,
    pub constant: i64,
}

/// Range affine maps over range sums: values are summed, and an action maps
/// every element `x` of a range to `multiplier * x + constant`.
pub struct RangeAffineRangeSum;

impl LazyReversibleRbstSpec for RangeAffineRangeSum {
    type Value = i64;

    type Action = Affine;

    open spec fn identity_spec() -> i64 {
        0
    }

    open spec fn combine_spec(left: i64, right: i64) -> i64 {
        wrap(left + right)
    }

    open spec fn apply_spec(action: Affine, value: i64, len: nat) -> i64 {
        wrap(action.multiplier * value + action.constant * len)
    }

    open spec fn compose_spec(new: Affine, old: Affine) -> Affine {
        Affine {
            multiplier: wrap(new.multiplier * old.multiplier),
            constant: wrap(new.multiplier * old.constant + new.constant),
        }
    }

    proof fn lemma_combine_associative(a: i64, b: i64, c: i64) {
        RangeAddRangeSum::lemma_combine_associative(a, b, c);
    }

    proof fn lemma_identity(a: i64) {
        RangeAddRangeSum::lemma_identity(a);
    }

    proof fn lemma_apply_distributes(action: Affine, x: i64, y: i64, x_len: nat, y_len: nat) {
        let (m, c) = (action.multiplier as int, action.constant as int);
        let xy = wrap(x + y);
        let ax = wrap(m * x + c * x_len);
        let ay = wrap(m * y + c * y_len);
        lemma_wrap_congruent(x + y);
        lemma_wrap_congruent(m * x + c * x_len);
        lemma_wrap_congruent(m * y + c * y_len);
        lemma_congruent_mul(m, m, xy as int, x + y);
        lemma_congruent_add(m * xy, m * (x + y), c * (x_len + y_len), c * (x_len + y_len));
        lemma_congruent_add(ax as int, m * x + c * x_len, ay as int, m * y + c * y_len);
        assert(m * (x + y) + c * (x_len + y_len) == (m * x + c * x_len) + (m * y + c * y_len))
            by (nonlinear_arith);
        lemma_wrap_eq(m * xy + c * (x_len + y_len), ax + ay);
    }

    proof fn lemma_apply_compose(new: Affine, old: Affine, x: i64, len: nat) {
        let (nm, nc) = (new.multiplier as int, new.constant as int);
        let (om, oc) = (old.multiplier as int, old.constant as int);
        let cm = wrap(nm * om);
        let cc = wrap(nm * oc + nc);
        let inner = wrap(om * x + oc * len);
        lemma_wrap_congruent(nm * om);
        lemma_wrap_congruent(nm * oc + nc);
        lemma_wrap_congruent(om * x + oc * len);
        lemma_congruent_mul(cm as int, nm * om, x as int, x as int);
        lemma_congruent_mul(cc as int, nm * oc + nc, len as int, len as int);
        lemma_congruent_add(cm * x, (nm * om) * x, cc * len, (nm * oc + nc) * len);
        lemma_congruent_mul(nm, nm, inner as int, om * x + oc * len);
        lemma_congruent_add(nm * inner, nm * (om * x + oc * len), nc * len, nc * len);
        assert((nm * om) * x + (nm * oc + nc) * len == nm * (om * x + oc * len) + nc * len)
            by (nonlinear_arith);
        lemma_wrap_eq(cm * x + cc * len, nm * inner + nc * len);
    }

    proof fn lemma_value_clone(a: i64, b: i64) {
    }

    proof fn lemma_action_clone(a: Affine, b: Affine) {
    }

    fn identity() -> (r: i64) {
        0
    }

    fn combine(left: &i64, right: &i64) -> (r: i64) {
        add_wrapping(*left, *right)
    }

    fn apply(action: &Affine, value: &i64, len: usize) -> (r: i64) {
        let (m, c) = (action.multiplier, action.constant);
        let l = len_as_i64(len);
        let scaled = mul_wrapping(m, *value);
        let shift = mul_wrapping(c, l);
        let r = add_wrapping(scaled, shift);
        proof {
            lemma_wrap_congruent(m * *value);
            lemma_wrap_congruent(c * l);
            lemma_congruent_mul(c as int, c as int, l as int, len as int);
            lemma_congruent_add(scaled as int, m * *value, shift as int, c * len);
            lemma_wrap_eq(scaled + shift, m * *value + c * len);
        }
        r
    }

    fn compose(new: &Affine, old: &Affine) -> (r: Affine) {
        let multiplier = mul_wrapping(new.multiplier, old.multiplier);
        let scaled = mul_wrapping(new.multiplier, old.constant);
        let constant = add_wrapping(scaled, new.constant);
        proof {
            let t = new.multiplier * old.constant;
            lemma_wrap_congruent(t);
            lemma_congruent_add(scaled as int, t, new.constant as int, new.constant as int);
            lemma_wrap_eq(scaled + new.constant, t + new.constant);
        }
        Affine { multiplier, constant }
    }
}

/// A string held as a list of characters, so that equal texts are equal
/// values.
pub enum Text {
    Empty,
    Cons(char, Box<Text>),
}

/// ASCII case flip: lowercase letters become uppercase, other characters
/// go through ASCII lowercasing.
pub open spec fn flip_char(c: char) -> char {
    if 'a' <= c <= 'z' {
        ((c as int) - 32) as char
    } else if 'A' <= c <= 'Z' {
        ((c as int) + 32) as char
    } else {
        c
    }
}

impl Text {
    /// The characters of the text.
    pub open spec fn view_chars(self) -> Seq<char>
        decreases self,
    {
        match self {
            Text::Empty => Seq::empty(),
            Text::Cons(c, rest) => seq![c] + rest.view_chars(),
        }
    }

    /// The text `self` followed by `other`.
    pub open spec fn concat(self, other: Text) -> Text
        decreases self,
    {
        match self {
            Text::Empty => other,
            Text::Cons(c, rest) => Text::Cons(c, Box::new(rest.concat(other))),
        }
    }

    /// The text with the case of every ASCII letter flipped.
    pub open spec fn flipped(self) -> Text
        decreases self,
    {
        match self {
            Text::Empty => Text::Empty,
            Text::Cons(c, rest) => Text::Cons(flip_char(c), Box::new(rest.flipped())),
        }
    }

    /// The characters of `c` followed by `rest`.
    proof fn lemma_view_cons(c: char, rest: Text)
        ensures
            Text::Cons(c, Box::new(rest)).view_chars() == seq![c] + rest.view_chars(),
    {
    }

    proof fn lemma_concat_associative(a: Text, b: Text, c: Text)
        ensures
            a.concat(b).concat(c) == a.concat(b.concat(c)),
        decreases a,
    {
        if let Text::Cons(_, rest) = a {
            Text::lemma_concat_associative(*rest, b, c);
        }
    }

    proof fn lemma_concat_empty(a: Text)
        ensures
            a.concat(Text::Empty) == a,
        decreases a,
    {
        if let Text::Cons(_, rest) = a {
            Text::lemma_concat_empty(*rest);
        }
    }

    proof fn lemma_flip_concat(a: Text, b: Text)
        ensures
            a.concat(b).flipped() == a.flipped().concat(b.flipped()),
        decreases a,
    {
        if let Text::Cons(_, rest) = a {
            Text::lemma_flip_concat(*rest, b);
        }
    }

    proof fn lemma_flip_twice(a: Text)
        ensures
            a.flipped().flipped() == a,
        decreases a,
    {
        if let Text::Cons(c, rest) = a {
            Text::lemma_flip_twice(*rest);
            assert(flip_char(flip_char(c)) == c);
        }
    }

    /// The text of the characters of `s`.
    pub fn from_str(s: &str) -> (t: Text)
        ensures
            t.view_chars() == s@,
    {
        let chars = chars_of(s);
        let mut t = Text::Empty;
        let mut i = chars.len();
        while i > 0
            invariant
                i <= chars@.len(),
                chars@ == s@,
                t.view_chars() == chars@.skip(i as int),
            decreases i,
        {
            i -= 1;
            proof {
                assert(chars@.skip(i as int) =~= seq![chars@[i as int]] + chars@.skip(i + 1));
            }
            let ghost previous = t;
            let c = chars[i];
            t = Text::Cons(c, Box::new(t));
            proof {
                Text::lemma_view_cons(c, previous);
            }
        }
        t
    }

    /// The text as a `String`.
    pub fn as_string(&self) -> (s: String)
        ensures
            s@ == self.view_chars(),
    {
        let mut chars: Vec<char> = Vec::new();
        let mut cur = self;
        loop
            invariant
                chars@ + cur.view_chars() == self.view_chars(),
            ensures
                chars@ == self.view_chars(),
            decreases cur,
        {
            match cur {
                Text::Empty => {
                    assert(chars@ + Seq::<char>::empty() =~= chars@);
                    break ;
                },
                Text::Cons(c, rest) => {
                    proof {
                        assert(chars@.push(*c) + rest.view_chars() =~= chars@ + (seq![*c]
                            + rest.view_chars()));
                    }
                    chars.push(*c);
                    cur = rest;
                },
            }
        }
        string_from_chars(chars)
    }

    fn concat_exec(&self, other: &Text) -> (r: Text)
        ensures
            r == self.concat(*other),
        decreases self,
    {
        match self {
            Text::Empty => other.clone(),
            Text::Cons(c, rest) => Text::Cons(*c, Box::new(rest.concat_exec(other))),
        }
    }

    fn flipped_exec(&self) -> (r: Text)
        ensures
            r == self.flipped(),
        decreases self,
    {
        match self {
            Text::Empty => Text::Empty,
            Text::Cons(c, rest) => Text::Cons(flip_case(*c), Box::new(rest.flipped_exec())),
        }
    }
}

impl Clone for Text {
    fn clone(&self) -> (r: Self)
        ensures
            r == *self,
        decreases self,
    {
        match self {
            Text::Empty => Text::Empty,
            Text::Cons(c, rest) => Text::Cons(*c, Box::new((**rest).clone())),
        }
    }
}

/// Flips the case of an ASCII letter.
fn flip_case(c: char) -> (r: char)
    ensures
        r == flip_char(c),
{
    let code = c as u32;
    if 97 <= code && code <= 122 {
        ((code - 32) as u8) as char
    } else if 65 <= code && code <= 90 {
        ((code + 32) as u8) as char
    } else {
        c
    }
}

/// Concatenation of texts, with an action that flips the case of every
/// ASCII letter: a monoid that does not commute.
pub struct Concatenation;

impl LazyReversibleRbstSpec for Concatenation {
    type Value = Text;

    type Action = bool;

    open spec fn identity_spec() -> Text {
        Text::Empty
    }

    open spec fn combine_spec(left: Text, right: Text) -> Text {
        left.concat(right)
    }

    open spec fn apply_spec(action: bool, value: Text, len: nat) -> Text {
        if action {
            value.flipped()
        } else {
            value
        }
    }

    open spec fn compose_spec(new: bool, old: bool) -> bool {
        new != old
    }

    proof fn lemma_combine_associative(a: Text, b: Text, c: Text) {
        Text::lemma_concat_associative(a, b, c);
    }

    proof fn lemma_identity(a: Text) {
        Text::lemma_concat_empty(a);
    }

    proof fn lemma_apply_distributes(action: bool, x: Text, y: Text, x_len: nat, y_len: nat) {
        Text::lemma_flip_concat(x, y);
    }

    proof fn lemma_apply_compose(new: bool, old: bool, x: Text, len: nat) {
        Text::lemma_flip_twice(x);
    }

    proof fn lemma_value_clone(a: Text, b: Text) {
    }

    proof fn lemma_action_clone(a: bool, b: bool) {
    }

    fn identity() -> (r: Text) {
        Text::Empty
    }

    fn combine(left: &Text, right: &Text) -> (r: Text) {
        left.concat_exec(right)
    }

    fn apply(action: &bool, value: &Text, len: usize) -> (r: Text) {
        if *action {
            value.flipped_exec()
        } else {
            value.clone()
        }
    }

    fn compose(new: &bool, old: &bool) -> (r: bool) {
        *new != *old
    }
}

} // verus!
