use vstd::prelude::*;
use vstd::string::*;

verus! {

/// An operation on two operands.
#[derive(Clone, Copy, Debug, PartialEq, Eq, Structural)]
pub enum BinOp {
    And,
    Or,
    Xor,
    Add,
    Sub,
    Mul,
    Div,
    Min,
    Max,
    Eq,
    Neq,
    Lt,
    Lte,
    Gt,
    Gte,
}

/// A token of an expression in reverse Polish notation.
#[derive(Debug)]
pub enum Token {
    /// The constant false.
    False,
    /// The constant true.
    True,
    /// A number.
    Value(i32),
    /// A variable, by its name.
    Var(String),
    /// Negation of the operand on top.
    Not,
    /// An operation on the two operands on top.
    Binary(BinOp),
    /// If-then-else on the three operands on top: condition, then, else.
    Ite,
    /// Remember the operand on top under a name.
    Save(String),
    /// Put what was remembered under a name on top.
    Load(String),
}

/// A token as a mathematical value.
pub enum TokenView {
    False,
    True,
    Value(i32),
    Var(Seq<char>),
    Not,
    Binary(BinOp),
    Ite,
    Save(Seq<char>),
    Load(Seq<char>),
}

impl View for Token {
    type V = TokenView;

    open spec fn view(&self) -> TokenView {
        match self {
            Token::False => TokenView::False,
            Token::True => TokenView::True,
            Token::Value(v) => TokenView::Value(*v),
            Token::Var(x) => TokenView::Var(x@),
            Token::Not => TokenView::Not,
            Token::Binary(op) => TokenView::Binary(*op),
            Token::Ite => TokenView::Ite,
            Token::Save(x) => TokenView::Save(x@),
            Token::Load(x) => TokenView::Load(x@),
        }
    }
}

/// `s` begins with `p`.
pub open spec fn begins_with(s: Seq<char>, p: Seq<char>) -> bool {
    p.len() <= s.len() && s.subrange(0, p.len() as int) == p
}

/// `s` ends with `p`.
pub open spec fn ends_with(s: Seq<char>, p: Seq<char>) -> bool {
    p.len() <= s.len() && s.subrange(s.len() - p.len(), s.len() as int) == p
}

/// `s` is `open`, a name and `close`.
pub open spec fn is_call(s: Seq<char>, open: Seq<char>, close: Seq<char>) -> bool {
    begins_with(s, open) && ends_with(s, close) && open.len() + close.len() <= s.len()
}

/// The name between `open` and `close`.
pub open spec fn call_name(s: Seq<char>, open: Seq<char>, close: Seq<char>) -> Seq<char> {
    s.subrange(open.len() as int, s.len() - close.len())
}

/// Whether two strings are the same.
pub fn same(a: &str, b: &str) -> (r: bool)
    ensures
        r == (a@ == b@),
{
    let n = a.unicode_len();
    if n != b.unicode_len() {
        return false;
    }
    let mut i: usize = 0;
    while i < n
        invariant
            i <= n,
            n == a@.len(),
            n == b@.len(),
            forall|j: int| 0 <= j < i ==> a@[j] == b@[j],
        decreases n - i,
    {
        if a.get_char(i) != b.get_char(i) {
            return false;
        }
        i = i + 1;
    }
    assert(a@ =~= b@);
    true
}

/// Whether `s` has the same characters as `p` from place `at` on.
fn matches_at(s: &str, p: &str, at: usize) -> (r: bool)
    requires
        at + p@.len() <= s@.len(),
    ensures
        r == (s@.subrange(at as int, at + p@.len()) == p@),
{
    let n = p.unicode_len();
    let total = s.unicode_len();
    let mut i: usize = 0;
    while i < n
        invariant
            i <= n,
            n == p@.len(),
            at + n <= s@.len(),
            total == s@.len(),
            forall|j: int| 0 <= j < i ==> s@[at + j] == p@[j],
        decreases n - i,
    {
        if s.get_char(at + i) != p.get_char(i) {
            assert(s@.subrange(at as int, at + p@.len())[i as int] != p@[i as int]);
            return false;
        }
        i = i + 1;
    }
    assert(s@.subrange(at as int, at + p@.len()) =~= p@);
    true
}

/// The name of a call `open name close`, if `s` is one.
pub fn call_of(s: &str, open: &str, close: &str) -> (r: Option<String>)
    ensures
        match r {
            Some(name) => is_call(s@, open@, close@) && name@ == call_name(s@, open@, close@),
            None => !is_call(s@, open@, close@),
        },
{
    let n = s.unicode_len();
    let a = open.unicode_len();
    let b = close.unicode_len();
    if a > n || b > n - a {
        return None;
    }
    if matches_at(s, open, 0) && matches_at(s, close, n - b) {
        Some(s.substring_char(a, n - b).to_owned())
    } else {
        None
    }
}

/// The digit that a character stands for.
pub open spec fn digit_of(c: char) -> Option<int> {
    if c == '0' {
        Some(0)
    } else if c == '1' {
        Some(1)
    } else if c == '2' {
        Some(2)
    } else if c == '3' {
        Some(3)
    } else if c == '4' {
        Some(4)
    } else if c == '5' {
        Some(5)
    } else if c == '6' {
        Some(6)
    } else if c == '7' {
        Some(7)
    } else if c == '8' {
        Some(8)
    } else if c == '9' {
        Some(9)
    } else {
        None
    }
}

/// The number that a sequence of digits stands for, none where a
/// character is no digit.
pub open spec fn digits_value(s: Seq<char>) -> Option<int>
    decreases s.len(),
{
    if s.len() == 0 {
        Some(0)
    } else {
        match (digits_value(s.drop_last()), digit_of(s.last())) {
            (Some(v), Some(d)) => Some(v * 10 + d),
            _ => None,
        }
    }
}

/// The number that `s` stands for as a 32-bit integer: an optional sign,
/// then one digit or more, the whole within the range of the type.
pub open spec fn number_of(s: Seq<char>) -> Option<i32> {
    let signed = s.len() > 0 && (s[0] == '-' || s[0] == '+');
    let body = if signed {
        s.drop_first()
    } else {
        s
    };
    if body.len() == 0 {
        None
    } else {
        match digits_value(body) {
            Some(v) => {
                let n = if s[0] == '-' {
                    -v
                } else {
                    v
                };
                if i32::MIN <= n <= i32::MAX {
                    Some(n as i32)
                } else {
                    None
                }
            },
            None => None,
        }
    }
}

fn digit(c: char) -> (r: Option<i64>)
    ensures
        match r {
            Some(d) => digit_of(c) == Some(d as int) && 0 <= d <= 9,
            None => digit_of(c) is None,
        },
{
    if c == '0' {
        Some(0)
    } else if c == '1' {
        Some(1)
    } else if c == '2' {
        Some(2)
    } else if c == '3' {
        Some(3)
    } else if c == '4' {
        Some(4)
    } else if c == '5' {
        Some(5)
    } else if c == '6' {
        Some(6)
    } else if c == '7' {
        Some(7)
    } else if c == '8' {
        Some(8)
    } else if c == '9' {
        Some(9)
    } else {
        None
    }
}

/// A sequence with a character that is no digit stands for no number,
/// and the number of a sequence of digits is no less than that of each
/// beginning of it.
proof fn lemma_digits_prefix(s: Seq<char>, i: int)
    requires
        0 <= i <= s.len(),
    ensures
        digits_value(s.subrange(0, i)) is None ==> digits_value(s) is None,
        digits_value(s) is Some ==> 0 <= digits_value(s.subrange(0, i))->0 <= digits_value(s)->0,
    decreases s.len() - i,
{
    if i == s.len() {
        assert(s.subrange(0, i) =~= s);
        lemma_digits_positive(s);
    } else {
        lemma_digits_prefix(s.drop_last(), i);
        assert(s.drop_last().subrange(0, i) =~= s.subrange(0, i));
        lemma_digits_positive(s.drop_last());
    }
}

proof fn lemma_digits_positive(s: Seq<char>)
    ensures
        digits_value(s) is Some ==> digits_value(s)->0 >= 0,
    decreases s.len(),
{
    if s.len() > 0 {
        lemma_digits_positive(s.drop_last());
    }
}

/// The 32-bit integer that `s` stands for, if it stands for one.
pub fn parse_i32(s: &str) -> (r: Option<i32>)
    ensures
        r == number_of(s@),
{
    let n = s.unicode_len();
    if n == 0 {
        return None;
    }
    let first = s.get_char(0);
    let negative = first == '-';
    let start: usize = if first == '-' || first == '+' {
        1
    } else {
        0
    };
    if start == n {
        return None;
    }
    let ghost body = if start == 1 {
        s@.drop_first()
    } else {
        s@
    };
    let mut acc: i64 = 0;
    let mut i: usize = start;
    proof {
        assert(body.subrange(0, 0) =~= Seq::<char>::empty());
    }
    while i < n
        invariant
            start <= i <= n,
            n == s@.len(),
            start <= 1,
            start == 1 <==> (s@[0] == '-' || s@[0] == '+'),
            negative == (s@[0] == '-'),
            body == if start == 1 {
                s@.drop_first()
            } else {
                s@
            },
            body.len() == n - start,
            forall|j: int| 0 <= j < body.len() ==> body[j] == s@[j + start],
            digits_value(body.subrange(0, i - start)) == Some(acc as int),
            0 <= acc <= 0x8000_0000,
        decreases n - i,
    {
        let ghost upto = body.subrange(0, i - start);
        let ghost more = body.subrange(0, i + 1 - start);
        proof {
            assert(more.drop_last() =~= upto);
            assert(more.last() == s@[i as int]);
            lemma_digits_prefix(body, i + 1 - start);
        }
        match digit(s.get_char(i)) {
            None => {
                assert(digits_value(more) is None);
                return None;
            },
            Some(d) => {
                let next = acc * 10 + d;
                assert(digits_value(more) == Some(next as int));
                if next > 0x8000_0000 {
                    return None;
                }
                acc = next;
            },
        }
        i = i + 1;
    }
    proof {
        assert(body.subrange(0, n - start) =~= body);
    }
    if negative {
        Some((-acc) as i32)
    } else if acc > 0x7fff_ffff {
        None
    } else {
        Some(acc as i32)
    }
}

/// A word of an expression over Boolean variables as a token: `0` and
/// `False`, `1` and `True`, the operators `&`, `|`, `^`, `~` and `?`,
/// `save(name)` and `load(name)`; any other word names a variable.
pub open spec fn bss_token(s: Seq<char>) -> TokenView {
    if s == "0"@ || s == "False"@ {
        TokenView::False
    } else if s == "1"@ || s == "True"@ {
        TokenView::True
    } else if s == "&"@ {
        TokenView::Binary(BinOp::And)
    } else if s == "|"@ {
        TokenView::Binary(BinOp::Or)
    } else if s == "^"@ {
        TokenView::Binary(BinOp::Xor)
    } else if s == "~"@ {
        TokenView::Not
    } else if s == "?"@ {
        TokenView::Ite
    } else if is_call(s, "save("@, ")"@) {
        TokenView::Save(call_name(s, "save("@, ")"@))
    } else if is_call(s, "load("@, ")"@) {
        TokenView::Load(call_name(s, "load("@, ")"@))
    } else {
        TokenView::Var(s)
    }
}

/// The token of a word of an expression over Boolean variables.
pub fn classify_bss(word: &str) -> (t: Token)
    ensures
        t@ == bss_token(word@),
{
    if same(word, "0") || same(word, "False") {
        Token::False
    } else if same(word, "1") || same(word, "True") {
        Token::True
    } else if same(word, "&") {
        Token::Binary(BinOp::And)
    } else if same(word, "|") {
        Token::Binary(BinOp::Or)
    } else if same(word, "^") {
        Token::Binary(BinOp::Xor)
    } else if same(word, "~") {
        Token::Not
    } else if same(word, "?") {
        Token::Ite
    } else {
        match call_of(word, "save(", ")") {
            Some(name) => Token::Save(name),
            None => match call_of(word, "load(", ")") {
                Some(name) => Token::Load(name),
                None => Token::Var(word.to_owned()),
            },
        }
    }
}

/// The operator that a word stands for in an expression over
/// multi-valued variables.
pub open spec fn mss_operator(s: Seq<char>) -> Option<TokenView> {
    if s == "+"@ {
        Some(TokenView::Binary(BinOp::Add))
    } else if s == "-"@ {
        Some(TokenView::Binary(BinOp::Sub))
    } else if s == "*"@ {
        Some(TokenView::Binary(BinOp::Mul))
    } else if s == "/"@ {
        Some(TokenView::Binary(BinOp::Div))
    } else if s == "min"@ {
        Some(TokenView::Binary(BinOp::Min))
    } else if s == "max"@ {
        Some(TokenView::Binary(BinOp::Max))
    } else if s == "=="@ {
        Some(TokenView::Binary(BinOp::Eq))
    } else if s == "!="@ {
        Some(TokenView::Binary(BinOp::Neq))
    } else if s == "<"@ {
        Some(TokenView::Binary(BinOp::Lt))
    } else if s == "<="@ {
        Some(TokenView::Binary(BinOp::Lte))
    } else if s == ">"@ {
        Some(TokenView::Binary(BinOp::Gt))
    } else if s == ">="@ {
        Some(TokenView::Binary(BinOp::Gte))
    } else if s == "&&"@ {
        Some(TokenView::Binary(BinOp::And))
    } else if s == "||"@ {
        Some(TokenView::Binary(BinOp::Or))
    } else if s == "!"@ {
        Some(TokenView::Not)
    } else if s == "?"@ {
        Some(TokenView::Ite)
    } else if s == "True"@ {
        Some(TokenView::True)
    } else if s == "False"@ {
        Some(TokenView::False)
    } else {
        None
    }
}

/// A word of an expression over multi-valued variables as a token: an
/// operator, `save(name)` or `load(name)`, a number, or else the name of
/// a variable.
pub open spec fn mss_token(s: Seq<char>) -> TokenView {
    match mss_operator(s) {
        Some(t) => t,
        None => if is_call(s, "save("@, ")"@) {
            TokenView::Save(call_name(s, "save("@, ")"@))
        } else if is_call(s, "load("@, ")"@) {
            TokenView::Load(call_name(s, "load("@, ")"@))
        } else {
            match number_of(s) {
                Some(v) => TokenView::Value(v),
                None => TokenView::Var(s),
            }
        },
    }
}

fn operator_mss(word: &str) -> (r: Option<Token>)
    ensures
        match r {
            Some(t) => mss_operator(word@) == Some(t@),
            None => mss_operator(word@) is None,
        },
{
    if same(word, "+") {
        Some(Token::Binary(BinOp::Add))
    } else if same(word, "-") {
        Some(Token::Binary(BinOp::Sub))
    } else if same(word, "*") {
        Some(Token::Binary(BinOp::Mul))
    } else if same(word, "/") {
        Some(Token::Binary(BinOp::Div))
    } else if same(word, "min") {
        Some(Token::Binary(BinOp::Min))
    } else if same(word, "max") {
        Some(Token::Binary(BinOp::Max))
    } else if same(word, "==") {
        Some(Token::Binary(BinOp::Eq))
    } else if same(word, "!=") {
        Some(Token::Binary(BinOp::Neq))
    } else if same(word, "<") {
        Some(Token::Binary(BinOp::Lt))
    } else if same(word, "<=") {
        Some(Token::Binary(BinOp::Lte))
    } else if same(word, ">") {
        Some(Token::Binary(BinOp::Gt))
    } else if same(word, ">=") {
        Some(Token::Binary(BinOp::Gte))
    } else if same(word, "&&") {
        Some(Token::Binary(BinOp::And))
    } else if same(word, "||") {
        Some(Token::Binary(BinOp::Or))
    } else if same(word, "!") {
        Some(Token::Not)
    } else if same(word, "?") {
        Some(Token::Ite)
    } else if same(word, "True") {
        Some(Token::True)
    } else if same(word, "False") {
        Some(Token::False)
    } else {
        None
    }
}

/// The token of a word of an expression over multi-valued variables.
pub fn classify_mss(word: &str) -> (t: Token)
    ensures
        t@ == mss_token(word@),
{
    match operator_mss(word) {
        Some(t) => t,
        None => match call_of(word, "save(", ")") {
            Some(name) => Token::Save(name),
            None => match call_of(word, "load(", ")") {
                Some(name) => Token::Load(name),
                None => match parse_i32(word) {
                    Some(v) => Token::Value(v),
                    None => Token::Var(word.to_owned()),
                },
            },
        },
    }
}

/// Why an expression cannot be evaluated.
#[derive(Debug)]
pub enum RpnError {
    /// An operator finds too few operands.
    StackUnderflow,
    /// There is nothing to remember.
    EmptySave,
    /// Nothing was remembered under the name.
    NoCachedValue(String),
    /// The variable is not declared.
    UnknownVariable(String),
    /// The expression leaves no value, or more than one.
    InvalidExpression,
}

/// An error as a mathematical value.
pub enum RpnErrorView {
    StackUnderflow,
    EmptySave,
    NoCachedValue(Seq<char>),
    UnknownVariable(Seq<char>),
    InvalidExpression,
}

impl View for RpnError {
    type V = RpnErrorView;

    open spec fn view(&self) -> RpnErrorView {
        match self {
            RpnError::StackUnderflow => RpnErrorView::StackUnderflow,
            RpnError::EmptySave => RpnErrorView::EmptySave,
            RpnError::NoCachedValue(x) => RpnErrorView::NoCachedValue(x@),
            RpnError::UnknownVariable(x) => RpnErrorView::UnknownVariable(x@),
            RpnError::InvalidExpression => RpnErrorView::InvalidExpression,
        }
    }
}

impl RpnError {
    /// What the error says.
    pub open spec fn message_spec(e: RpnErrorView) -> Seq<char> {
        match e {
            RpnErrorView::StackUnderflow => "Stack is empty"@,
            RpnErrorView::EmptySave => "Stack is empty for save operation"@,
            RpnErrorView::NoCachedValue(x) => "No cached value for "@ + x,
            RpnErrorView::UnknownVariable(x) => "Unknown variable: "@ + x,
            RpnErrorView::InvalidExpression => "Invalid expression"@,
        }
    }

    /// What the error says.
    pub fn message(&self) -> (r: String)
        ensures
            r@ == Self::message_spec(self@),
    {
        match self {
            RpnError::StackUnderflow => String::from_str("Stack is empty"),
            RpnError::EmptySave => String::from_str("Stack is empty for save operation"),
            RpnError::NoCachedValue(x) => String::from_str("No cached value for ").concat(
                x.as_str(),
            ),
            RpnError::UnknownVariable(x) => String::from_str("Unknown variable: ").concat(
                x.as_str(),
            ),
            RpnError::InvalidExpression => String::from_str("Invalid expression"),
        }
    }
}

/// Where the evaluation of an expression stands: how many operands are
/// on the stack, and under which names one was remembered.
pub struct Tally {
    pub depth: nat,
    pub saved: Seq<Seq<char>>,
}

/// Whether a variable is declared: the names of the variables that an
/// expression may use, or none where every name will do.
pub open spec fn declared(names: Option<Seq<Seq<char>>>, x: Seq<char>) -> bool {
    match names {
        Some(list) => list.contains(x),
        None => true,
    }
}

/// What a token does to the stack: a constant, a number, a variable and
/// a remembered operand come on top; negation takes one operand and
/// leaves one, an operation on two takes two and leaves one, if-then-else
/// takes three and leaves one; remembering needs one and leaves it.
pub open spec fn step(
    st: Tally,
    t: TokenView,
    names: Option<Seq<Seq<char>>>,
) -> Result<Tally, RpnErrorView> {
    match t {
        TokenView::False | TokenView::True | TokenView::Value(_) => Ok(
            Tally { depth: st.depth + 1, saved: st.saved },
        ),
        TokenView::Var(x) => if declared(names, x) {
            Ok(Tally { depth: st.depth + 1, saved: st.saved })
        } else {
            Err(RpnErrorView::UnknownVariable(x))
        },
        TokenView::Not => if st.depth >= 1 {
            Ok(st)
        } else {
            Err(RpnErrorView::StackUnderflow)
        },
        TokenView::Binary(_) => if st.depth >= 2 {
            Ok(Tally { depth: (st.depth - 1) as nat, saved: st.saved })
        } else {
            Err(RpnErrorView::StackUnderflow)
        },
        TokenView::Ite => if st.depth >= 3 {
            Ok(Tally { depth: (st.depth - 2) as nat, saved: st.saved })
        } else {
            Err(RpnErrorView::StackUnderflow)
        },
        TokenView::Save(x) => if st.depth >= 1 {
            Ok(Tally { depth: st.depth, saved: st.saved.push(x) })
        } else {
            Err(RpnErrorView::EmptySave)
        },
        TokenView::Load(x) => if st.saved.contains(x) {
            Ok(Tally { depth: st.depth + 1, saved: st.saved })
        } else {
            Err(RpnErrorView::NoCachedValue(x))
        },
    }
}

/// Where the evaluation stands after the tokens, or the first error on
/// the way.
pub open spec fn run(tokens: Seq<TokenView>, names: Option<Seq<Seq<char>>>) -> Result<
    Tally,
    RpnErrorView,
>
    decreases tokens.len(),
{
    if tokens.len() == 0 {
        Ok(Tally { depth: 0, saved: Seq::empty() })
    } else {
        match run(tokens.drop_last(), names) {
            Ok(st) => step(st, tokens.last(), names),
            Err(e) => Err(e),
        }
    }
}

/// What is wrong with an expression: the first error in taking its
/// tokens one after the other, or that it does not leave exactly one
/// value; nothing where it can be evaluated.
pub open spec fn verdict(tokens: Seq<TokenView>, names: Option<Seq<Seq<char>>>) -> Option<
    RpnErrorView,
> {
    match run(tokens, names) {
        Err(e) => Some(e),
        Ok(st) => if st.depth == 1 {
            None
        } else {
            Some(RpnErrorView::InvalidExpression)
        },
    }
}

pub open spec fn tokens_view(tokens: Seq<Token>) -> Seq<TokenView> {
    tokens.map_values(|t: Token| t@)
}

pub open spec fn names_view(names: Seq<String>) -> Seq<Seq<char>> {
    names.map_values(|s: String| s@)
}

/// What carrying out a token does with the stack of operands. Places
/// count from the bottom of the stack. The result of an operation takes
/// the lowest place of its operands, and what stood above leaves.
#[derive(Clone, Copy, Debug, PartialEq, Eq, Structural)]
pub enum Action {
    /// A constant, a variable or a saved value goes on top, to `at`.
    Push { at: usize },
    /// The operand at `at`, the top, gives way to its negation.
    Replace { at: usize },
    /// The operation is applied to `left` and `right`, in this order.
    Combine { left: usize, right: usize },
    /// Where `cond` holds the result is `then`, else `otherwise`.
    Choose { cond: usize, then: usize, otherwise: usize },
    /// The value at `at`, the top, is saved and stays.
    Keep { at: usize },
}

/// What a token that can be carried out does with a stack of `depth`
/// operands: an operator takes the topmost operands, the one that was
/// pushed first as its first.
pub open spec fn action_of(depth: nat, t: TokenView) -> Action {
    match t {
        TokenView::Not => Action::Replace { at: (depth - 1) as usize },
        TokenView::Binary(_) => Action::Combine {
            left: (depth - 2) as usize,
            right: (depth - 1) as usize,
        },
        TokenView::Ite => Action::Choose {
            cond: (depth - 3) as usize,
            then: (depth - 2) as usize,
            otherwise: (depth - 1) as usize,
        },
        TokenView::Save(_) => Action::Keep { at: (depth - 1) as usize },
        _ => Action::Push { at: depth as usize },
    }
}

/// Whether `list` holds `x`.
fn holds_name(list: &Vec<String>, x: &String) -> (r: bool)
    ensures
        r == names_view(list@).contains(x@),
{
    let ghost view = names_view(list@);
    let mut i: usize = 0;
    while i < list.len()
        invariant
            i <= list.len(),
            view == names_view(list@),
            forall|j: int| 0 <= j < i ==> view[j] != x@,
        decreases list.len() - i,
    {
        if list[i] == *x {
            assert(view[i as int] == x@);
            return true;
        }
        i = i + 1;
    }
    false
}

/// The state of an evaluation that takes the tokens of an expression one
/// after the other: it tells for each token whether it can be carried
/// out, before anything is done.
pub struct RpnState {
    depth: usize,
    saved: Vec<String>,
}

impl View for RpnState {
    type V = Tally;

    closed spec fn view(&self) -> Tally {
        Tally { depth: self.depth as nat, saved: names_view(self.saved@) }
    }
}

impl RpnState {
    /// The state before the first token.
    pub fn new() -> (r: Self)
        ensures
            r@ == (Tally { depth: 0, saved: Seq::empty() }),
    {
        let r = RpnState { depth: 0, saved: Vec::new() };
        assert(names_view(r.saved@) =~= Seq::<Seq<char>>::empty());
        r
    }

    /// The number of operands on the stack.
    pub fn depth(&self) -> (r: usize)
        ensures
            r == self@.depth,
    {
        self.depth
    }

    /// Takes the next token: where it can be carried out, the state moves
    /// on; where it cannot, the state stays and the error says why.
    pub fn take(&mut self, token: &Token, names: Option<&Vec<String>>) -> (r: Result<(), RpnError>)
        requires
            old(self)@.depth < usize::MAX,
        ensures
            match r {
                Ok(_) => step(old(self)@, token@, spec_names(names)) == Ok::<Tally, RpnErrorView>(
                    final(self)@,
                ),
                Err(e) => step(old(self)@, token@, spec_names(names)) == Err::<
                    Tally,
                    RpnErrorView,
                >(e@) && final(self)@ == old(self)@,
            },
    {
        let ghost before = names_view(self.saved@);
        match token {
            Token::False | Token::True | Token::Value(_) => {
                self.depth = self.depth + 1;
                Ok(())
            },
            Token::Var(x) => {
                let known = match names {
                    Some(list) => holds_name(list, x),
                    None => true,
                };
                if known {
                    self.depth = self.depth + 1;
                    Ok(())
                } else {
                    Err(RpnError::UnknownVariable(x.clone()))
                }
            },
            Token::Not => {
                if self.depth < 1 {
                    Err(RpnError::StackUnderflow)
                } else {
                    Ok(())
                }
            },
            Token::Binary(_) => {
                if self.depth < 2 {
                    Err(RpnError::StackUnderflow)
                } else {
                    self.depth = self.depth - 1;
                    Ok(())
                }
            },
            Token::Ite => {
                if self.depth < 3 {
                    Err(RpnError::StackUnderflow)
                } else {
                    self.depth = self.depth - 2;
                    Ok(())
                }
            },
            Token::Save(x) => {
                if self.depth < 1 {
                    Err(RpnError::EmptySave)
                } else {
                    self.saved.push(x.clone());
                    assert(names_view(self.saved@) =~= before.push(x@));
                    Ok(())
                }
            },
            Token::Load(x) => {
                if holds_name(&self.saved, x) {
                    self.depth = self.depth + 1;
                    Ok(())
                } else {
                    Err(RpnError::NoCachedValue(x.clone()))
                }
            },
        }
    }

    /// Takes the next token as [`RpnState::take`] does, and says what
    /// carrying it out does with the stack of operands.
    pub fn plan(&mut self, token: &Token, names: Option<&Vec<String>>) -> (r: Result<
        Action,
        RpnError,
    >)
        requires
            old(self)@.depth < usize::MAX,
        ensures
            match r {
                Ok(a) => step(old(self)@, token@, spec_names(names)) == Ok::<Tally, RpnErrorView>(
                    final(self)@,
                ) && a == action_of(old(self)@.depth, token@),
                Err(e) => step(old(self)@, token@, spec_names(names)) == Err::<
                    Tally,
                    RpnErrorView,
                >(e@) && final(self)@ == old(self)@,
            },
    {
        let depth = self.depth;
        match self.take(token, names) {
            Err(e) => Err(e),
            Ok(_) => Ok(
                match token {
                    Token::Not => Action::Replace { at: depth - 1 },
                    Token::Binary(_) => Action::Combine { left: depth - 2, right: depth - 1 },
                    Token::Ite => Action::Choose {
                        cond: depth - 3,
                        then: depth - 2,
                        otherwise: depth - 1,
                    },
                    Token::Save(_) => Action::Keep { at: depth - 1 },
                    _ => Action::Push { at: depth },
                },
            ),
        }
    }

    /// Ends the evaluation: an expression has to leave exactly one value.
    pub fn finish(&self) -> (r: Result<(), RpnError>)
        ensures
            match r {
                Ok(_) => self@.depth == 1,
                Err(e) => self@.depth != 1 && e@ == RpnErrorView::InvalidExpression,
            },
    {
        if self.depth == 1 {
            Ok(())
        } else {
            Err(RpnError::InvalidExpression)
        }
    }
}

/// Whether the expression of the tokens can be evaluated, and if not,
/// why. With `names`, a variable has to be one of them.
pub fn check(tokens: &Vec<Token>, names: Option<&Vec<String>>) -> (r: Result<(), RpnError>)
    ensures
        match r {
            Ok(_) => verdict(tokens_view(tokens@), spec_names(names)) is None,
            Err(e) => verdict(tokens_view(tokens@), spec_names(names)) == Some(e@),
        },
{
    let ghost view = tokens_view(tokens@);
    let ghost allowed = spec_names(names);
    let mut state = RpnState::new();
    let mut i: usize = 0;
    proof {
        assert(view.subrange(0, 0) =~= Seq::<TokenView>::empty());
    }
    while i < tokens.len()
        invariant
            i <= tokens.len(),
            view == tokens_view(tokens@),
            allowed == spec_names(names),
            state@.depth <= i,
            run(view.subrange(0, i as int), allowed) == Ok::<Tally, RpnErrorView>(state@),
        decreases tokens.len() - i,
    {
        proof {
            let upto = view.subrange(0, i + 1);
            assert(upto.drop_last() =~= view.subrange(0, i as int));
            assert(upto.last() == tokens@[i as int]@);
        }
        match state.take(&tokens[i], names) {
            Ok(_) => {},
            Err(e) => {
                proof {
                    lemma_run_stops(view, allowed, i + 1);
                }
                return Err(e);
            },
        }
        i = i + 1;
    }
    assert(view.subrange(0, tokens.len() as int) =~= view);
    state.finish()
}

/// The names that `check` was given.
pub open spec fn spec_names(names: Option<&Vec<String>>) -> Option<Seq<Seq<char>>> {
    match names {
        Some(list) => Some(names_view(list@)),
        None => None,
    }
}

/// An error in a beginning of an expression is the error of the whole.
proof fn lemma_run_stops(tokens: Seq<TokenView>, names: Option<Seq<Seq<char>>>, n: int)
    requires
        0 <= n <= tokens.len(),
        run(tokens.subrange(0, n), names) is Err,
    ensures
        run(tokens, names) == run(tokens.subrange(0, n), names),
    decreases tokens.len() - n,
{
    if n == tokens.len() {
        assert(tokens.subrange(0, n) =~= tokens);
    } else {
        assert(tokens.drop_last().subrange(0, n) =~= tokens.subrange(0, n));
        lemma_run_stops(tokens.drop_last(), names, n);
    }
}

/// The tokens of the words of an expression over Boolean variables,
/// where the expression can be evaluated; else what is wrong with it.
pub fn parse_bss(words: &Vec<String>) -> (r: Result<Vec<Token>, RpnError>)
    ensures
        match r {
            Ok(tokens) => {
                &&& tokens_view(tokens@) == names_view(words@).map_values(
                    |w: Seq<char>| bss_token(w),
                )
                &&& verdict(tokens_view(tokens@), None) is None
            },
            Err(e) => verdict(
                names_view(words@).map_values(|w: Seq<char>| bss_token(w)),
                None,
            ) == Some(e@),
        },
{
    let mut tokens: Vec<Token> = Vec::new();
    let mut i: usize = 0;
    while i < words.len()
        invariant
            i <= words.len(),
            tokens@.len() == i,
            forall|j: int| 0 <= j < i ==> (#[trigger] tokens@[j])@ == bss_token(words@[j]@),
        decreases words.len() - i,
    {
        tokens.push(classify_bss(words[i].as_str()));
        i = i + 1;
    }
    assert(tokens_view(tokens@) =~= names_view(words@).map_values(|w: Seq<char>| bss_token(w)));
    match check(&tokens, None) {
        Ok(_) => Ok(tokens),
        Err(e) => Err(e),
    }
}

/// The tokens of the words of an expression over multi-valued
/// variables, where the expression can be evaluated with the variables
/// of `names`; else what is wrong with it.
pub fn parse_mss(words: &Vec<String>, names: &Vec<String>) -> (r: Result<Vec<Token>, RpnError>)
    ensures
        match r {
            Ok(tokens) => {
                &&& tokens_view(tokens@) == names_view(words@).map_values(
                    |w: Seq<char>| mss_token(w),
                )
                &&& verdict(tokens_view(tokens@), Some(names_view(names@))) is None
            },
            Err(e) => verdict(
                names_view(words@).map_values(|w: Seq<char>| mss_token(w)),
                Some(names_view(names@)),
            ) == Some(e@),
        },
{
    let mut tokens: Vec<Token> = Vec::new();
    let mut i: usize = 0;
    while i < words.len()
        invariant
            i <= words.len(),
            tokens@.len() == i,
            forall|j: int| 0 <= j < i ==> (#[trigger] tokens@[j])@ == mss_token(words@[j]@),
        decreases words.len() - i,
    {
        tokens.push(classify_mss(words[i].as_str()));
        i = i + 1;
    }
    assert(tokens_view(tokens@) =~= names_view(words@).map_values(|w: Seq<char>| mss_token(w)));
    match check(&tokens, Some(names)) {
        Ok(_) => Ok(tokens),
        Err(e) => Err(e),
    }
}

} // verus!
