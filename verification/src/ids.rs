//! Identities: panel content, tab groups (tiles) and resizable branches
//! (splits), plus the decimal naming used for generated ids.
use vstd::prelude::*;

verus! {

/// The character for a decimal digit.
pub open spec fn digit_char(d: nat) -> char {
    if d == 0 { '0' }
    else if d == 1 { '1' }
    else if d == 2 { '2' }
    else if d == 3 { '3' }
    else if d == 4 { '4' }
    else if d == 5 { '5' }
    else if d == 6 { '6' }
    else if d == 7 { '7' }
    else if d == 8 { '8' }
    else { '9' }
}

/// The decimal text of a natural number, most significant digit first,
/// without leading zeros.
pub open spec fn decimal(n: nat) -> Seq<char>
    decreases n,
{
    if n < 10 {
        seq![digit_char(n)]
    } else {
        decimal(n / 10).push(digit_char(n % 10))
    }
}

proof fn lemma_digit_char_injective(a: nat, b: nat)
    requires
        a < 10,
        b < 10,
        digit_char(a) == digit_char(b),
    ensures
        a == b,
{
}

/// Every decimal text has at least one digit, and numbers of ten or more
/// have at least two.
pub proof fn lemma_decimal_len(n: nat)
    ensures
        decimal(n).len() >= 1,
        n >= 10 ==> decimal(n).len() >= 2,
    decreases n,
{
    if n >= 10 {
        lemma_decimal_len(n / 10);
    }
}

/// Distinct numbers have distinct decimal texts.
pub proof fn lemma_decimal_injective(a: nat, b: nat)
    requires
        decimal(a) == decimal(b),
    ensures
        a == b,
    decreases a,
{
    lemma_decimal_len(a);
    lemma_decimal_len(b);
    if a < 10 && b < 10 {
        assert(decimal(a) == seq![digit_char(a)]);
        assert(decimal(b) == seq![digit_char(b)]);
        assert(decimal(a)[0] == digit_char(a));
        assert(decimal(b)[0] == digit_char(b));
        lemma_digit_char_injective(a, b);
    } else if a >= 10 && b >= 10 {
        let da = decimal(a);
        let db = decimal(b);
        assert(da.last() == digit_char(a % 10));
        assert(db.last() == digit_char(b % 10));
        lemma_digit_char_injective(a % 10, b % 10);
        assert(da.drop_last() =~= decimal(a / 10));
        assert(db.drop_last() =~= decimal(b / 10));
        lemma_decimal_injective(a / 10, b / 10);
    } else if a < 10 {
        lemma_decimal_len(b / 10);
    } else {
        lemma_decimal_len(a / 10);
    }
}

/// `prefix + x == prefix + y` only when `x == y`.
pub proof fn lemma_prefix_cancel(prefix: Seq<char>, x: Seq<char>, y: Seq<char>)
    requires
        prefix + x == prefix + y,
    ensures
        x == y,
{
    assert((prefix + x).skip(prefix.len() as int) =~= x);
    assert((prefix + y).skip(prefix.len() as int) =~= y);
}

fn digit_text(d: u64) -> (r: &'static str)
    requires
        d < 10,
    ensures
        r@ == seq![digit_char(d as nat)],
{
    proof {
        reveal_strlit("0");
        reveal_strlit("1");
        reveal_strlit("2");
        reveal_strlit("3");
        reveal_strlit("4");
        reveal_strlit("5");
        reveal_strlit("6");
        reveal_strlit("7");
        reveal_strlit("8");
        reveal_strlit("9");
    }
    if d == 0 { "0" }
    else if d == 1 { "1" }
    else if d == 2 { "2" }
    else if d == 3 { "3" }
    else if d == 4 { "4" }
    else if d == 5 { "5" }
    else if d == 6 { "6" }
    else if d == 7 { "7" }
    else if d == 8 { "8" }
    else { "9" }
}

/// The decimal text of `n`.
pub fn decimal_text(n: u64) -> (r: String)
    ensures
        r@ == decimal(n as nat),
    decreases n,
{
    if n < 10 {
        String::from_str(digit_text(n))
    } else {
        let mut head = decimal_text(n / 10);
        head.append(digit_text(n % 10));
        assert(head@ =~= decimal(n as nat));
        head
    }
}

/// A stable application-owned identity for panel content.
#[derive(Clone, Debug, Eq, Hash, Ord, PartialEq, PartialOrd)]
pub struct PanelId(String);

/// A stable identity for a tab group in the layout tree.
#[derive(Clone, Debug, Eq, Hash, Ord, PartialEq, PartialOrd)]
pub struct TileId(String);

/// A stable identity for a resizable branch in the layout tree.
#[derive(Clone, Debug, Eq, Hash, Ord, PartialEq, PartialOrd)]
pub struct SplitId(String);

impl View for PanelId {
    type V = Seq<char>;

    closed spec fn view(&self) -> Seq<char> {
        self.0@
    }
}

impl View for TileId {
    type V = Seq<char>;

    closed spec fn view(&self) -> Seq<char> {
        self.0@
    }
}

impl View for SplitId {
    type V = Seq<char>;

    closed spec fn view(&self) -> Seq<char> {
        self.0@
    }
}

impl PanelId {
    pub fn new(value: &str) -> (r: Self)
        ensures
            r@ == value@,
    {
        PanelId(String::from_str(value))
    }

    pub fn from_string(value: String) -> (r: Self)
        ensures
            r@ == value@,
    {
        PanelId(value)
    }

    pub fn as_str(&self) -> (r: &str)
        ensures
            r@ == self@,
    {
        self.0.as_str()
    }

    /// A copy with the same text.
    pub fn duplicate(&self) -> (r: Self)
        ensures
            r@ == self@,
    {
        PanelId(self.0.clone())
    }

    /// Whether both ids hold the same text.
    pub fn same(&self, other: &Self) -> (r: bool)
        ensures
            r == (self@ == other@),
    {
        self.0 == other.0
    }
}

impl TileId {
    pub fn new(value: &str) -> (r: Self)
        ensures
            r@ == value@,
    {
        TileId(String::from_str(value))
    }

    pub fn from_string(value: String) -> (r: Self)
        ensures
            r@ == value@,
    {
        TileId(value)
    }

    pub fn as_str(&self) -> (r: &str)
        ensures
            r@ == self@,
    {
        self.0.as_str()
    }

    /// A copy with the same text.
    pub fn duplicate(&self) -> (r: Self)
        ensures
            r@ == self@,
    {
        TileId(self.0.clone())
    }

    /// Whether both ids hold the same text.
    pub fn same(&self, other: &Self) -> (r: bool)
        ensures
            r == (self@ == other@),
    {
        self.0 == other.0
    }
}

impl SplitId {
    pub fn new(value: &str) -> (r: Self)
        ensures
            r@ == value@,
    {
        SplitId(String::from_str(value))
    }

    pub fn from_string(value: String) -> (r: Self)
        ensures
            r@ == value@,
    {
        SplitId(value)
    }

    pub fn as_str(&self) -> (r: &str)
        ensures
            r@ == self@,
    {
        self.0.as_str()
    }

    /// A copy with the same text.
    pub fn duplicate(&self) -> (r: Self)
        ensures
            r@ == self@,
    {
        SplitId(self.0.clone())
    }

    /// Whether both ids hold the same text.
    pub fn same(&self, other: &Self) -> (r: bool)
        ensures
            r == (self@ == other@),
    {
        self.0 == other.0
    }
}


impl<'a> From<&'a str> for PanelId {
    /// The id with this text.
    fn from(value: &'a str) -> (r: Self)
        ensures
            r@ == value@,
    {
        PanelId::new(value)
    }
}

impl<'a> vstd::std_specs::convert::FromSpecImpl<&'a str> for PanelId {
    /// Callers learn the text from the `ensures` of `from` itself.
    open spec fn obeys_from_spec() -> bool {
        false
    }

    open spec fn from_spec(value: &'a str) -> PanelId {
        choose|r: PanelId| r@ == value@
    }
}

impl<'a> From<&'a str> for TileId {
    /// The id with this text.
    fn from(value: &'a str) -> (r: Self)
        ensures
            r@ == value@,
    {
        TileId::new(value)
    }
}

impl<'a> vstd::std_specs::convert::FromSpecImpl<&'a str> for TileId {
    /// Callers learn the text from the `ensures` of `from` itself.
    open spec fn obeys_from_spec() -> bool {
        false
    }

    open spec fn from_spec(value: &'a str) -> TileId {
        choose|r: TileId| r@ == value@
    }
}

impl<'a> From<&'a str> for SplitId {
    /// The id with this text.
    fn from(value: &'a str) -> (r: Self)
        ensures
            r@ == value@,
    {
        SplitId::new(value)
    }
}

impl<'a> vstd::std_specs::convert::FromSpecImpl<&'a str> for SplitId {
    /// Callers learn the text from the `ensures` of `from` itself.
    open spec fn obeys_from_spec() -> bool {
        false
    }

    open spec fn from_spec(value: &'a str) -> SplitId {
        choose|r: SplitId| r@ == value@
    }
}

} // verus!
