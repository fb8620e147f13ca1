//! Lexical JSON numbers.
use vstd::prelude::*;
use vstd::std_specs::cmp::PartialEqSpecImpl;

verus! {

/// States of the automaton recognizing the lexical form of JSON numbers
/// (RFC 8259, section 6).
#[derive(Clone, Copy, PartialEq, Eq, Structural, Debug)]
pub enum NumberState {
    Init,
    FirstDigit,
    Zero,
    NonZero,
    FractionalFirst,
    FractionalRest,
    ExponentSign,
    ExponentFirst,
    ExponentRest,
}

pub open spec fn is_digit(c: char) -> bool {
    '0' <= c <= '9'
}

/// Transition of the number automaton on `c`, if any.
pub open spec fn number_step(st: NumberState, c: char) -> Option<NumberState> {
    match st {
        NumberState::Init => if c == '-' {
            Some(NumberState::FirstDigit)
        } else if c == '0' {
            Some(NumberState::Zero)
        } else if '1' <= c <= '9' {
            Some(NumberState::NonZero)
        } else {
            None
        },
        NumberState::FirstDigit => if c == '0' {
            Some(NumberState::Zero)
        } else if '1' <= c <= '9' {
            Some(NumberState::NonZero)
        } else {
            None
        },
        NumberState::Zero => if c == '.' {
            Some(NumberState::FractionalFirst)
        } else if c == 'e' || c == 'E' {
            Some(NumberState::ExponentSign)
        } else {
            None
        },
        NumberState::NonZero => if is_digit(c) {
            Some(NumberState::NonZero)
        } else if c == '.' {
            Some(NumberState::FractionalFirst)
        } else if c == 'e' || c == 'E' {
            Some(NumberState::ExponentSign)
        } else {
            None
        },
        NumberState::FractionalFirst => if is_digit(c) {
            Some(NumberState::FractionalRest)
        } else {
            None
        },
        NumberState::FractionalRest => if is_digit(c) {
            Some(NumberState::FractionalRest)
        } else if c == 'e' || c == 'E' {
            Some(NumberState::ExponentSign)
        } else {
            None
        },
        NumberState::ExponentSign => if c == '+' || c == '-' {
            Some(NumberState::ExponentFirst)
        } else if is_digit(c) {
            Some(NumberState::ExponentRest)
        } else {
            None
        },
        NumberState::ExponentFirst => if is_digit(c) {
            Some(NumberState::ExponentRest)
        } else {
            None
        },
        NumberState::ExponentRest => if is_digit(c) {
            Some(NumberState::ExponentRest)
        } else {
            None
        },
    }
}

/// Accepting states of the number automaton.
pub open spec fn number_state_is_final(st: NumberState) -> bool {
    st == NumberState::Zero || st == NumberState::NonZero || st == NumberState::FractionalRest
        || st == NumberState::ExponentRest
}

/// Runs the number automaton from `st` on the whole of `s`.
pub open spec fn number_run(st: NumberState, s: Seq<char>) -> Option<NumberState>
    decreases s.len(),
{
    if s.len() == 0 {
        Some(st)
    } else {
        match number_step(st, s[0]) {
            Some(next) => number_run(next, s.drop_first()),
            None => None,
        }
    }
}

/// `s` is the lexical form of a JSON number.
pub open spec fn is_json_number(s: Seq<char>) -> bool {
    match number_run(NumberState::Init, s) {
        Some(st) => number_state_is_final(st),
        None => false,
    }
}

pub proof fn lemma_number_run_push(st: NumberState, s: Seq<char>, c: char)
    ensures
        number_run(st, s.push(c)) == match number_run(st, s) {
            Some(m) => number_step(m, c),
            None => None,
        },
    decreases s.len(),
{
    if s.len() == 0 {
        assert(s.push(c).drop_first() =~= Seq::<char>::empty());
        reveal_with_fuel(number_run, 2);
    } else {
        assert(s.push(c)[0] == s[0]);
        assert(s.push(c).drop_first() =~= s.drop_first().push(c));
        match number_step(st, s[0]) {
            Some(next) => lemma_number_run_push(next, s.drop_first(), c),
            None => {},
        }
    }
}

/// Executable transition of the number automaton.
pub fn number_transition(st: NumberState, c: char) -> (r: Option<NumberState>)
    ensures
        r == number_step(st, c),
{
    match st {
        NumberState::Init => if c == '-' {
            Some(NumberState::FirstDigit)
        } else if c == '0' {
            Some(NumberState::Zero)
        } else if '1' <= c && c <= '9' {
            Some(NumberState::NonZero)
        } else {
            None
        },
        NumberState::FirstDigit => if c == '0' {
            Some(NumberState::Zero)
        } else if '1' <= c && c <= '9' {
            Some(NumberState::NonZero)
        } else {
            None
        },
        NumberState::Zero => if c == '.' {
            Some(NumberState::FractionalFirst)
        } else if c == 'e' || c == 'E' {
            Some(NumberState::ExponentSign)
        } else {
            None
        },
        NumberState::NonZero => if '0' <= c && c <= '9' {
            Some(NumberState::NonZero)
        } else if c == '.' {
            Some(NumberState::FractionalFirst)
        } else if c == 'e' || c == 'E' {
            Some(NumberState::ExponentSign)
        } else {
            None
        },
        NumberState::FractionalFirst => if '0' <= c && c <= '9' {
            Some(NumberState::FractionalRest)
        } else {
            None
        },
        NumberState::FractionalRest => if '0' <= c && c <= '9' {
            Some(NumberState::FractionalRest)
        } else if c == 'e' || c == 'E' {
            Some(NumberState::ExponentSign)
        } else {
            None
        },
        NumberState::ExponentSign => if c == '+' || c == '-' {
            Some(NumberState::ExponentFirst)
        } else if '0' <= c && c <= '9' {
            Some(NumberState::ExponentRest)
        } else {
            None
        },
        NumberState::ExponentFirst => if '0' <= c && c <= '9' {
            Some(NumberState::ExponentRest)
        } else {
            None
        },
        NumberState::ExponentRest => if '0' <= c && c <= '9' {
            Some(NumberState::ExponentRest)
        } else {
            None
        },
    }
}

pub fn number_state_final(st: NumberState) -> (r: bool)
    ensures
        r == number_state_is_final(st),
{
    match st {
        NumberState::Zero | NumberState::NonZero | NumberState::FractionalRest
        | NumberState::ExponentRest => true,
        _ => false,
    }
}

/// Number buffer: the lexical form of a JSON number.
#[derive(Debug, Hash)]
pub struct NumberBuf {
    pub(crate) data: String,
}

impl View for NumberBuf {
    type V = Seq<char>;

    /// The lexical form (which the type invariant keeps a JSON number).
    closed spec fn view(&self) -> Seq<char> {
        if is_json_number(self.data@) {
            self.data@
        } else {
            seq!['0']
        }
    }
}

impl NumberBuf {
    /// The text held is a JSON number.
    #[verifier::type_invariant]
    closed spec fn inv(self) -> bool {
        is_json_number(self.data@)
    }

    /// The lexical form is a JSON number.
    pub closed spec fn wf(&self) -> bool {
        is_json_number(self@)
    }

    /// The lexical form of every number buffer is a JSON number.
    pub proof fn lemma_is_number(n: NumberBuf)
        ensures
            is_json_number(n@),
            n.wf(),
    {
        reveal_with_fuel(number_run, 2);
        assert(seq!['0'].drop_first() =~= Seq::<char>::empty());
    }

    pub(crate) fn from_lexical(data: String) -> (r: NumberBuf)
        requires
            is_json_number(data@),
        ensures
            r@ == data@,
            r.wf(),
    {
        NumberBuf { data }
    }

    pub fn as_str(&self) -> (r: &str)
        ensures
            r@ == self@,
    {
        proof {
            use_type_invariant(self);
        }
        self.data.as_str()
    }
}

impl Clone for NumberBuf {
    fn clone(&self) -> (r: NumberBuf)
        ensures
            r@ == self@,
            r.wf() == self.wf(),
    {
        proof {
            use_type_invariant(self);
        }
        NumberBuf { data: self.data.clone() }
    }
}

impl PartialEq for NumberBuf {
    fn eq(&self, other: &NumberBuf) -> (r: bool) {
        proof {
            use_type_invariant(self);
            use_type_invariant(other);
        }
        self.data == other.data
    }
}

impl Eq for NumberBuf {}

impl PartialEqSpecImpl for NumberBuf {
    open spec fn obeys_eq_spec() -> bool {
        true
    }

    open spec fn eq_spec(&self, other: &NumberBuf) -> bool {
        self@ == other@
    }
}

/// The decimal digit `d`, below ten.
pub open spec fn digit_char(d: nat) -> char {
    if d == 0 {
        '0'
    } else if d == 1 {
        '1'
    } else if d == 2 {
        '2'
    } else if d == 3 {
        '3'
    } else if d == 4 {
        '4'
    } else if d == 5 {
        '5'
    } else if d == 6 {
        '6'
    } else if d == 7 {
        '7'
    } else if d == 8 {
        '8'
    } else {
        '9'
    }
}

/// The decimal digits of `n`, without leading zeros.
pub open spec fn decimal(n: nat) -> Seq<char>
    decreases n,
{
    if n < 10 {
        seq![digit_char(n)]
    } else {
        decimal(n / 10).push(digit_char(n % 10))
    }
}

/// How the integer `n` is written: its decimal digits, after `-` if it is
/// negative.
pub open spec fn integer_text(n: int) -> Seq<char> {
    if n < 0 {
        seq!['-'] + decimal((-n) as nat)
    } else {
        decimal(n as nat)
    }
}

proof fn lemma_decimal_run(st: NumberState, n: nat)
    requires
        st == NumberState::Init || st == NumberState::FirstDigit,
    ensures
        number_run(st, decimal(n)) == Some(
            if n == 0 {
                NumberState::Zero
            } else {
                NumberState::NonZero
            },
        ),
    decreases n,
{
    if n < 10 {
        let s = decimal(n);
        assert(s.drop_first() =~= Seq::<char>::empty());
        reveal_with_fuel(number_run, 2);
    } else {
        lemma_decimal_run(st, n / 10);
        lemma_number_run_push(st, decimal(n / 10), digit_char(n % 10));
    }
}

/// The text of an integer is a JSON number.
pub proof fn lemma_integer_text_is_number(n: int)
    ensures
        is_json_number(integer_text(n)),
{
    if n < 0 {
        let s = integer_text(n);
        let m = (-n) as nat;
        lemma_decimal_run(NumberState::FirstDigit, m);
        assert(s[0] == '-');
        assert(s.drop_first() =~= decimal(m));
    } else {
        lemma_decimal_run(NumberState::Init, n as nat);
    }
}

/// `json_number::NumberBuf::from` on a `u64`: `lexical::to_string` writes
/// the integer in decimal.
#[verifier::external_body]
fn lexical_u64(n: u64) -> (r: String)
    ensures
        r@ == integer_text(n as int),
{
    json_number::NumberBuf::<Vec<u8>>::from(n).as_str().to_owned()
}

/// `json_number::NumberBuf::from` on an `i64`: `lexical::to_string` writes
/// the integer in decimal, after `-` if it is negative.
#[verifier::external_body]
fn lexical_i64(n: i64) -> (r: String)
    ensures
        r@ == integer_text(n as int),
{
    json_number::NumberBuf::<Vec<u8>>::from(n).as_str().to_owned()
}

impl NumberBuf {
    /// The number that writes the integer `n`.
    pub fn from_u64(n: u64) -> (r: NumberBuf)
        ensures
            r@ == integer_text(n as int),
            r.wf(),
    {
        let s = lexical_u64(n);
        proof {
            lemma_integer_text_is_number(n as int);
        }
        NumberBuf::from_lexical(s)
    }

    /// The number that writes the integer `n`.
    pub fn from_i64(n: i64) -> (r: NumberBuf)
        ensures
            r@ == integer_text(n as int),
            r.wf(),
    {
        let s = lexical_i64(n);
        proof {
            lemma_integer_text_is_number(n as int);
        }
        NumberBuf::from_lexical(s)
    }
}

} // verus!
