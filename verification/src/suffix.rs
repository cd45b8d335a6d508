use vstd::prelude::*;

verus! {

/// An SI magnitude prefix: a power of ten by which a stored mantissa is scaled.
///
/// The variants are ordered by strictly decreasing factor, from `Giga`
/// (ten to the ninth) down to `Pico` (ten to the minus twelfth), with
/// `Unity` (factor one, empty symbol) in the middle.
#[derive(Debug, Clone, Copy, PartialEq, Eq, Structural)]
pub enum Suffix {
    Giga,
    Mega,
    Kilo,
    Unity,
    Milli,
    Micro,
    Nano,
    Pico,
}

impl Suffix {
    /// The base-ten exponent of this prefix's multiplicative factor.
    pub open spec fn exponent_spec(self) -> int {
        match self {
            Suffix::Giga => 9,
            Suffix::Mega => 6,
            Suffix::Kilo => 3,
            Suffix::Unity => 0,
            Suffix::Milli => -3,
            Suffix::Micro => -6,
            Suffix::Nano => -9,
            Suffix::Pico => -12,
        }
    }

    /// The multiplicative factor of this prefix, given as its base-ten
    /// exponent: `9` stands for the factor ten-to-the-ninth, and so on.
    pub fn factor(&self) -> (e: i32)
        ensures
            e as int == self.exponent_spec(),
    {
        match self {
            Suffix::Giga => 9,
            Suffix::Mega => 6,
            Suffix::Kilo => 3,
            Suffix::Unity => 0,
            Suffix::Milli => -3,
            Suffix::Micro => -6,
            Suffix::Nano => -9,
            Suffix::Pico => -12,
        }
    }

    /// The canonical output symbol of this prefix.
    pub open spec fn symbol_spec(self) -> Seq<char> {
        match self {
            Suffix::Giga => seq!['G'],
            Suffix::Mega => seq!['M'],
            Suffix::Kilo => seq!['K'],
            Suffix::Unity => Seq::<char>::empty(),
            Suffix::Milli => seq!['m'],
            Suffix::Micro => seq!['u'],
            Suffix::Nano => seq!['n'],
            Suffix::Pico => seq!['p'],
        }
    }

    /// The canonical symbol emitted when formatting; kilo is always
    /// written with the upper-case letter on output.
    pub fn name(&self) -> (r: &'static str)
        ensures
            r@ == self.symbol_spec(),
    {
        proof {
            reveal_strlit("G");
            reveal_strlit("M");
            reveal_strlit("K");
            reveal_strlit("");
            reveal_strlit("m");
            reveal_strlit("u");
            reveal_strlit("n");
            reveal_strlit("p");
        }
        let r = match self {
            Suffix::Giga => "G",
            Suffix::Mega => "M",
            Suffix::Kilo => "K",
            Suffix::Unity => "",
            Suffix::Milli => "m",
            Suffix::Micro => "u",
            Suffix::Nano => "n",
            Suffix::Pico => "p",
        };
        proof {
            assert(r@ =~= self.symbol_spec());
        }
        r
    }

    /// The prefix recognized for a single symbol character on input;
    /// both casings of the kilo symbol are accepted.
    pub open spec fn of_char_spec(c: char) -> Option<Suffix> {
        if c == 'G' {
            Some(Suffix::Giga)
        } else if c == 'M' {
            Some(Suffix::Mega)
        } else if c == 'K' {
            Some(Suffix::Kilo)
        } else if c == 'k' {
            Some(Suffix::Kilo)
        } else if c == 'm' {
            Some(Suffix::Milli)
        } else if c == 'u' {
            Some(Suffix::Micro)
        } else if c == 'n' {
            Some(Suffix::Nano)
        } else if c == 'p' {
            Some(Suffix::Pico)
        } else {
            None
        }
    }

    /// Looks a prefix up by its textual symbol, as the prefix table of a
    /// parser does; the empty string names `Unity` and both `"K"` and
    /// `"k"` name `Kilo`.
    pub fn from_str(s: &str) -> (r: Result<Suffix, ()>)
        ensures
            s@.len() == 0 ==> r == Ok::<Suffix, ()>(Suffix::Unity),
            s@.len() == 1 ==> r == match Self::of_char_spec(s@[0]) {
                Some(x) => Ok::<Suffix, ()>(x),
                None => Err::<Suffix, ()>(()),
            },
            s@.len() > 1 ==> r == Err::<Suffix, ()>(()),
    {
        let n = s.unicode_len();
        if n == 0 {
            Ok(Suffix::Unity)
        } else if n == 1 {
            match Self::of_char(s.get_char(0)) {
                Some(x) => Ok(x),
                None => Err(()),
            }
        } else {
            Err(())
        }
    }

    /// The single-character prefix lookup used by the parser's priority
    /// table.
    pub fn of_char(c: char) -> (r: Option<Suffix>)
        ensures
            r == Self::of_char_spec(c),
    {
        if c == 'G' {
            Some(Suffix::Giga)
        } else if c == 'M' {
            Some(Suffix::Mega)
        } else if c == 'K' || c == 'k' {
            Some(Suffix::Kilo)
        } else if c == 'm' {
            Some(Suffix::Milli)
        } else if c == 'u' {
            Some(Suffix::Micro)
        } else if c == 'n' {
            Some(Suffix::Nano)
        } else if c == 'p' {
            Some(Suffix::Pico)
        } else {
            None
        }
    }
}

/// The factors of the prefix table fall strictly as the table is walked
/// from `Giga` down to `Pico`: no two prefixes share a factor, and the
/// normalization scan below always meets factors in descending order.
pub proof fn lemma_factors_strictly_decrease()
    ensures
        forall|a: Suffix, b: Suffix|
            a.order_index() < b.order_index() ==> a.exponent_spec() > b.exponent_spec(),
{
}

impl Suffix {
    /// The position of this prefix in the table's descending-factor order.
    pub open spec fn order_index(self) -> int {
        match self {
            Suffix::Giga => 0,
            Suffix::Mega => 1,
            Suffix::Kilo => 2,
            Suffix::Unity => 3,
            Suffix::Milli => 4,
            Suffix::Micro => 5,
            Suffix::Nano => 6,
            Suffix::Pico => 7,
        }
    }
}

} // verus!
verus! {

/// No two prefixes share a canonical symbol, and every canonical symbol
/// reads back as its own prefix; on input the lower-case kilo spelling
/// is accepted besides.
pub proof fn lemma_symbols_faithful()
    ensures
        forall|a: Suffix, b: Suffix| a != b ==> a.symbol_spec() != b.symbol_spec(),
        forall|s: Suffix|
            s != Suffix::Unity ==> Suffix::of_char_spec(#[trigger] s.symbol_spec()[0]) == Some(s),
        Suffix::of_char_spec('k') == Some(Suffix::Kilo),
{
    assert forall|a: Suffix, b: Suffix| a != b implies a.symbol_spec() != b.symbol_spec() by {
        if a.symbol_spec() == b.symbol_spec() {
            assert(a.symbol_spec().len() == b.symbol_spec().len());
            if a.symbol_spec().len() == 1 {
                assert(a.symbol_spec()[0] == b.symbol_spec()[0]);
            }
        }
    }
}

} // verus!
