use vstd::prelude::*;

verus! {

/// A small linear-congruential pseudo-random generator; its whole state is
/// one 32-bit seed.
pub struct Prng {
    seed: u32,
}

/// Relies on std's system clock (SystemTime): the milliseconds elapsed
/// since the Unix epoch. The value depends on the machine's clock alone, so
/// nothing is promised of it; the call fails only on a clock set before the
/// epoch.
#[verifier::external_body]
fn unix_millis() -> u128 {
    std::time::SystemTime::now()
        .duration_since(std::time::UNIX_EPOCH)
        .expect("Time went backwards")
        .as_millis()
}

impl Prng {
    /// The seed the generator currently holds.
    pub closed spec fn seed_spec(&self) -> u32 {
        self.seed
    }

    /// How one draw transforms the seed: a linear-congruential step, kept
    /// to 32 bits and then reduced below 2^31, so every value handed out
    /// lies in [0, 2147483647].
    pub open spec fn next_seed_spec(s: u32) -> u32 {
        ((((s as int) * 1103515245 + 12345) % 0x100000000) % 0x80000000) as u32
    }

    /// A generator seeded from the clock.
    pub fn new() -> (r: Self) {
        let mut prng = Self { seed: 0 };
        prng.randomize();
        prng
    }

    /// A generator with the given seed.
    pub fn new_with_seed(seed: u32) -> (r: Self)
        ensures
            r.seed_spec() == seed,
    {
        Self { seed }
    }

    /// Reseed from the clock's milliseconds; the new seed can be anything.
    pub fn randomize(&mut self) {
        let millis = unix_millis();
        self.seed = (millis % 0x100000000u128) as u32;
    }

    /// Return a pseudorandom value in the range [0, 2147483647], advancing
    /// the seed by one linear-congruential step.
    pub fn next_u32(&mut self) -> (r: u32)
        ensures
            r == Self::next_seed_spec(old(self).seed_spec()),
            final(self).seed_spec() == r,
            r < 0x80000000u32,
    {
        let stepped: u64 = (self.seed as u64) * 1103515245u64 + 12345u64;
        let reduced: u64 = stepped % 0x100000000u64;
        self.seed = (reduced % 0x80000000u64) as u32;
        self.seed
    }
}

/// The decimal digit characters.
pub open spec fn digit_char(d: int) -> char {
    if d == 0 {
        '0'
    } else if d == 1 {
        '1'
    } else if d == 2 {
        '2'
    } else if d == 3 {
        '3'
    } else if d == 4 {
        '4'
    } else if d == 5 {
        '5'
    } else if d == 6 {
        '6'
    } else if d == 7 {
        '7'
    } else if d == 8 {
        '8'
    } else {
        '9'
    }
}

/// The decimal digits of a non-negative number, most significant first.
pub open spec fn dec_digits(n: int) -> Seq<char>
    decreases n,
{
    if n < 10 {
        seq![digit_char(n)]
    } else {
        dec_digits(n / 10).push(digit_char(n % 10))
    }
}

/// The decimal rendering of a signed number: its digits, with a leading
/// minus sign when it is negative.
pub open spec fn i32_dec(n: int) -> Seq<char> {
    if n < 0 {
        seq!['-'] + dec_digits(-n)
    } else {
        dec_digits(n)
    }
}

/// Relies on i32's Display implementation: the decimal digits of the
/// value, with a leading minus sign when it is negative.
#[verifier::external_body]
fn i32_to_string(n: i32) -> (r: String)
    ensures
        r@ == i32_dec(n as int),
{
    n.to_string()
}

/// Relies on String::push_str: appends the characters of the slice.
#[verifier::external_body]
fn append_str(s: &mut String, t: &str)
    ensures
        final(s)@ == old(s)@ + t@,
{
    s.push_str(t)
}

/// The first `k` numbers rendered in decimal, separated by single spaces.
pub open spec fn joined(s: Seq<i32>, k: int) -> Seq<char>
    decreases k,
{
    if k <= 0 {
        Seq::empty()
    } else if k == 1 {
        i32_dec(s[0] as int)
    } else {
        joined(s, k - 1) + seq![' '] + i32_dec(s[k - 1] as int)
    }
}

/// What `make_vec_string` renders: at most `count` leading entries in
/// decimal, space separated, inside square brackets.
pub open spec fn vec_string_spec(s: Seq<i32>, count: int) -> Seq<char> {
    let shown = if s.len() > count {
        count
    } else {
        s.len() as int
    };
    seq!['['] + joined(s, shown) + seq![']']
}

/// Render at most the first `num_items` entries of the vector, space
/// separated inside square brackets.
pub fn make_vec_string(vec: &Vec<i32>, num_items: i32) -> (r: String)
    requires
        num_items >= 0,
    ensures
        r@ == vec_string_spec(vec@, num_items as int),
{
    let mut max: usize = vec.len();
    if max > num_items as usize {
        max = num_items as usize;
    }

    let mut text = String::new();
    proof {
        reveal_strlit("[");
        reveal_strlit("]");
        reveal_strlit(" ");
        assert("["@ =~= seq!['[']);
        assert("]"@ =~= seq![']']);
        assert(" "@ =~= seq![' ']);
        assert(text@ =~= Seq::<char>::empty());
    }
    append_str(&mut text, "[");
    proof {
        assert(text@ =~= seq!['[']);
    }

    if max > 0 {
        let first = i32_to_string(vec[0]);
        append_str(&mut text, first.as_str());
        proof {
            assert(text@ =~= seq!['['] + joined(vec@, 1));
        }
    }

    let mut i: usize = 1;
    while i < max
        invariant
            max <= vec@.len(),
            max as int <= num_items as int || max == vec@.len(),
            max == 0 ==> i == 1,
            max > 0 ==> 1 <= i <= max,
            max > 0 ==> text@ == seq!['['] + joined(vec@, i as int),
            max == 0 ==> text@ == seq!['['],
        decreases max - i,
    {
        proof {
            reveal_strlit(" ");
            assert(" "@ =~= seq![' ']);
        }
        append_str(&mut text, " ");
        let digits = i32_to_string(vec[i]);
        append_str(&mut text, digits.as_str());
        proof {
            assert(text@ =~= seq!['['] + joined(vec@, i + 1));
        }
        i += 1;
    }

    proof {
        reveal_strlit("]");
        assert("]"@ =~= seq![']']);
    }
    append_str(&mut text, "]");
    proof {
        if max > 0 {
            assert(text@ =~= seq!['['] + joined(vec@, max as int) + seq![']']);
        } else {
            assert(joined(vec@, 0) =~= Seq::<char>::empty());
            assert(text@ =~= seq!['['] + joined(vec@, 0) + seq![']']);
        }
        assert(max as int == if vec@.len() > num_items as int {
            num_items as int
        } else {
            vec@.len() as int
        });
        assert(text@ =~= vec_string_spec(vec@, num_items as int));
    }
    text
}

} // verus!
