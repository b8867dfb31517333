use vstd::prelude::*;

use crate::tokenizer::{
    LexError, Token, TokenModel, Tokenizer, lemma_lex_token_progress, lex_token, token_prec,
};

verus! {

/// Binding precedence of an operator token, ordered from weakest to
/// strongest: `Default < AddSub < MulDiv < Power < Negative`. `Default` is
/// the precedence of every non-operator token and therefore stops the
/// precedence-climbing loop.
#[derive(Debug, Clone, Copy, PartialEq, Eq, PartialOrd, Structural)]
pub enum OperPrec {
    Default,
    AddSub,
    MulDiv,
    Power,
    Negative,
}

/// Numeric rank of a precedence level, used to compare levels in
/// specifications.
pub open spec fn prec_num(p: OperPrec) -> int {
    match p {
        OperPrec::Default => 0,
        OperPrec::AddSub => 1,
        OperPrec::MulDiv => 2,
        OperPrec::Power => 3,
        OperPrec::Negative => 4,
    }
}

/// Rank of a precedence level, for comparisons in executable code.
fn prec_level(p: OperPrec) -> (n: u8)
    ensures
        n as int == prec_num(p),
{
    match p {
        OperPrec::Default => 0,
        OperPrec::AddSub => 1,
        OperPrec::MulDiv => 2,
        OperPrec::Power => 3,
        OperPrec::Negative => 4,
    }
}

/// One node of the abstract syntax tree. Each binary variant owns its two
/// children, `Negative` owns its one child, and a leaf holds the text of a
/// numeric literal as the tokenizer collected it.
#[derive(Debug, PartialEq)]
pub enum Node {
    Number(Vec<char>),
    Add(Box<Node>, Box<Node>),
    Subtract(Box<Node>, Box<Node>),
    Multiply(Box<Node>, Box<Node>),
    Divide(Box<Node>, Box<Node>),
    Power(Box<Node>, Box<Node>),
    Negative(Box<Node>),
}

/// Mathematical value of a [`Node`]: the same tree with each literal
/// abstracted to its character sequence.
pub enum AstModel {
    Number(Seq<char>),
    Add(Box<AstModel>, Box<AstModel>),
    Subtract(Box<AstModel>, Box<AstModel>),
    Multiply(Box<AstModel>, Box<AstModel>),
    Divide(Box<AstModel>, Box<AstModel>),
    Power(Box<AstModel>, Box<AstModel>),
    Negative(Box<AstModel>),
}

pub open spec fn node_model(n: Node) -> AstModel
    decreases n,
{
    match n {
        Node::Number(lit) => AstModel::Number(lit@),
        Node::Add(l, r) => AstModel::Add(Box::new(node_model(*l)), Box::new(node_model(*r))),
        Node::Subtract(l, r) => AstModel::Subtract(
            Box::new(node_model(*l)),
            Box::new(node_model(*r)),
        ),
        Node::Multiply(l, r) => AstModel::Multiply(
            Box::new(node_model(*l)),
            Box::new(node_model(*r)),
        ),
        Node::Divide(l, r) => AstModel::Divide(Box::new(node_model(*l)), Box::new(node_model(*r))),
        Node::Power(l, r) => AstModel::Power(Box::new(node_model(*l)), Box::new(node_model(*r))),
        Node::Negative(x) => AstModel::Negative(Box::new(node_model(*x))),
    }
}

impl View for Node {
    type V = AstModel;

    open spec fn view(&self) -> AstModel {
        node_model(*self)
    }
}

/// A structural fault in the expression: a lexical fault handed up from the
/// tokenizer, a token where no primary expression can start (or, defensively,
/// in an operator fold step), or a parenthesized group that is never closed.
#[derive(Debug, Clone, Copy, PartialEq, Eq, Structural)]
pub enum ParseError {
    Lex(LexError),
    UnsupportedToken,
    MissingRightParen,
}

/// Characters of the input that lie at or after position `i`.
pub open spec fn chars_left(s: Seq<char>, i: nat) -> nat {
    if i <= s.len() {
        (s.len() - i) as nat
    } else {
        0
    }
}

/// The larger of two positions.
pub open spec fn pos_max(i: nat, j: nat) -> nat {
    if j < i {
        i
    } else {
        j
    }
}

/// The tokens that fold two parsed operands into a binary node.
pub open spec fn is_binary_op(t: TokenModel) -> bool {
    t is Add || t is Subtract || t is Multiply || t is Divide || t is Caret
}

/// The minimum precedence passed down when parsing the right-hand operand
/// of an operator fold. For `+ - * /` it is the operator's own precedence,
/// which keeps a chain of them left-nested; for `^` it is one step below
/// `Power`, so that a following `^` is absorbed into the right-hand side and
/// the chain nests to the right.
pub open spec fn rhs_min_prec(op: TokenModel) -> OperPrec
    recommends
        is_binary_op(op),
{
    match op {
        TokenModel::Add | TokenModel::Subtract => OperPrec::AddSub,
        TokenModel::Multiply | TokenModel::Divide => OperPrec::MulDiv,
        TokenModel::Caret => OperPrec::MulDiv,
        _ => OperPrec::Default,
    }
}

/// The binary node an operator token builds from its two operands.
pub open spec fn fold_op(op: TokenModel, left: AstModel, right: AstModel) -> AstModel
    recommends
        is_binary_op(op),
{
    match op {
        TokenModel::Add => AstModel::Add(Box::new(left), Box::new(right)),
        TokenModel::Subtract => AstModel::Subtract(Box::new(left), Box::new(right)),
        TokenModel::Multiply => AstModel::Multiply(Box::new(left), Box::new(right)),
        TokenModel::Divide => AstModel::Divide(Box::new(left), Box::new(right)),
        TokenModel::Caret => AstModel::Power(Box::new(left), Box::new(right)),
        _ => left,
    }
}

/// Parses one expression at minimum precedence `min_prec`, starting from a
/// parser state whose lookahead token is `cur` and whose cursor stands at
/// `i`, just past that token: one primary term, then every following
/// operator that binds more tightly than `min_prec` is folded in. Returns
/// the tree together with the state left behind: the new lookahead token and
/// the cursor position just past it.
pub open spec fn parse_expr(
    s: Seq<char>,
    cur: TokenModel,
    i: nat,
    min_prec: OperPrec,
) -> Result<(AstModel, TokenModel, nat), ParseError>
    decreases chars_left(s, i), 3int,
{
    match parse_primary(s, cur, i) {
        // the cursor never moves backward; `pos_max` makes that plain to the
        // termination checker
        Ok((node, cur1, i1)) => parse_climb(s, node, cur1, pos_max(i, i1), min_prec),
        Err(e) => Err(e),
    }
}

/// Parses one primary term: a numeric literal; a unary minus, whose operand
/// is parsed at `Negative` precedence so that it binds only the immediate
/// base; or a parenthesized group, which must be closed by `)` and which
/// absorbs one immediately following group as an implicit multiplication.
/// Any other lookahead token is a fault.
pub open spec fn parse_primary(s: Seq<char>, cur: TokenModel, i: nat) -> Result<
    (AstModel, TokenModel, nat),
    ParseError,
>
    decreases chars_left(s, i), 2int,
{
    match cur {
        TokenModel::Number(lit) => match lex_token(s, i) {
            Ok((cur1, i1)) => Ok((AstModel::Number(lit), cur1, i1)),
            Err((e, _)) => Err(ParseError::Lex(e)),
        },
        TokenModel::Subtract => match lex_token(s, i) {
            Err((e, _)) => Err(ParseError::Lex(e)),
            Ok((cur1, i1)) => if cur1 is EOF {
                // an operand must follow; parsing it would fault at once
                Err(ParseError::UnsupportedToken)
            } else {
                {
                    proof {
                        lemma_lex_token_progress(s, i);
                    }
                    match parse_expr(s, cur1, i1, OperPrec::Negative) {
                        Ok((operand, cur2, i2)) => Ok(
                            (AstModel::Negative(Box::new(operand)), cur2, i2),
                        ),
                        Err(e) => Err(e),
                    }
                }
            },
        },
        TokenModel::LeftParen => match lex_token(s, i) {
            Err((e, _)) => Err(ParseError::Lex(e)),
            Ok((cur1, i1)) => if cur1 is EOF {
                // the group's body must follow; parsing it would fault at once
                Err(ParseError::UnsupportedToken)
            } else {
                {
                    proof {
                        lemma_lex_token_progress(s, i);
                    }
                    match parse_expr(s, cur1, i1, OperPrec::Default) {
                        Err(e) => Err(e),
                        Ok((inner, cur2, i2)) => if !(cur2 is RightParen) {
                            Err(ParseError::MissingRightParen)
                        } else {
                            // the cursor never moves backward; `pos_max`
                            // makes that plain to the termination checker
                            let i2c = pos_max(i1, i2);
                            match lex_token(s, i2c) {
                                Err((e, _)) => Err(ParseError::Lex(e)),
                                Ok((cur3, i3)) => if cur3 is LeftParen {
                                    {
                                        proof {
                                            lemma_lex_token_progress(s, i2c);
                                        }
                                        match parse_expr(s, cur3, i3, OperPrec::MulDiv) {
                                            Err(e) => Err(e),
                                            Ok((rhs, cur4, i4)) => Ok(
                                                (
                                                    AstModel::Multiply(
                                                        Box::new(inner),
                                                        Box::new(rhs),
                                                    ),
                                                    cur4,
                                                    i4,
                                                ),
                                            ),
                                        }
                                    }
                                } else {
                                    Ok((inner, cur3, i3))
                                },
                            }
                        },
                    }
                }
            },
        },
        _ => Err(ParseError::UnsupportedToken),
    }
}

/// The climbing loop: while the lookahead token binds more tightly than
/// `min_prec`, fold the term so far with a right-hand operand into a binary
/// node. The end marker and every non-operator token bind at `Default` and
/// stop the loop.
pub open spec fn parse_climb(
    s: Seq<char>,
    left: AstModel,
    cur: TokenModel,
    i: nat,
    min_prec: OperPrec,
) -> Result<(AstModel, TokenModel, nat), ParseError>
    decreases chars_left(s, i), 1int,
{
    if prec_num(min_prec) < prec_num(token_prec(cur)) {
        if !is_binary_op(cur) {
            // defensive: precedence above Default implies an operator
            Err(ParseError::UnsupportedToken)
        } else {
            match lex_token(s, i) {
                Err((e, _)) => Err(ParseError::Lex(e)),
                Ok((cur1, i1)) => if cur1 is EOF {
                    // a right-hand operand must follow; parsing it would fault at once
                    Err(ParseError::UnsupportedToken)
                } else {
                    {
                        proof {
                            lemma_lex_token_progress(s, i);
                        }
                        match parse_expr(s, cur1, i1, rhs_min_prec(cur)) {
                            Err(e) => Err(e),
                            // the cursor never moves backward; `pos_max`
                            // makes that plain to the termination checker
                            Ok((rhs, cur2, i2)) => parse_climb(
                                s,
                                fold_op(cur, left, rhs),
                                cur2,
                                pos_max(i1, i2),
                                min_prec,
                            ),
                        }
                    }
                },
            }
        }
    } else {
        Ok((left, cur, i))
    }
}

/// One fold step of the climbing loop, on its own: the operator token `cur`
/// is consumed, a right-hand operand is parsed at the operator's precedence,
/// and the two operands become one binary node.
pub open spec fn parse_fold(s: Seq<char>, left: AstModel, cur: TokenModel, i: nat) -> Result<
    (AstModel, TokenModel, nat),
    ParseError,
> {
    if !is_binary_op(cur) {
        Err(ParseError::UnsupportedToken)
    } else {
        match lex_token(s, i) {
            Err((e, _)) => Err(ParseError::Lex(e)),
            Ok((cur1, i1)) => if cur1 is EOF {
                Err(ParseError::UnsupportedToken)
            } else {
                match parse_expr(s, cur1, i1, rhs_min_prec(cur)) {
                    Err(e) => Err(e),
                    Ok((rhs, cur2, i2)) => Ok((fold_op(cur, left, rhs), cur2, pos_max(i1, i2))),
                }
            },
        }
    }
}

/// The climbing loop takes exactly one [`parse_fold`] step each time the
/// lookahead token binds more tightly than `min_prec`, and stops otherwise.
pub proof fn lemma_climb_step(
    s: Seq<char>,
    left: AstModel,
    cur: TokenModel,
    i: nat,
    min_prec: OperPrec,
)
    ensures
        prec_num(min_prec) < prec_num(token_prec(cur)) ==> parse_climb(s, left, cur, i, min_prec)
            == (match parse_fold(s, left, cur, i) {
            Ok(step) => parse_climb(s, step.0, step.1, step.2, min_prec),
            Err(e) => Err::<(AstModel, TokenModel, nat), ParseError>(e),
        }),
        prec_num(min_prec) >= prec_num(token_prec(cur)) ==> parse_climb(s, left, cur, i, min_prec)
            == Ok::<(AstModel, TokenModel, nat), ParseError>((left, cur, i)),
{
}

/// The outcome of parsing an expression text from its start: the first
/// token is fetched, then one expression is parsed at `Default` precedence.
/// Whatever follows the complete expression is never requested.
pub open spec fn parse_text(s: Seq<char>) -> Result<AstModel, ParseError> {
    match lex_token(s, 0) {
        Err((e, _)) => Err(ParseError::Lex(e)),
        Ok((cur, i)) => match parse_expr(s, cur, i, OperPrec::Default) {
            Ok((ast, _, _)) => Ok(ast),
            Err(e) => Err(e),
        },
    }
}

/// Parsing has no hidden state: the tree, or the fault, that an expression
/// text leads to is a function of the text alone, so parsing the same text
/// any number of times gives the same outcome every time.
pub proof fn lemma_parse_deterministic(s1: Seq<char>, s2: Seq<char>)
    requires
        s1 == s2,
    ensures
        parse_text(s1) == parse_text(s2),
{
}

/// A recursive-descent parser with one token of lookahead.
pub struct Parser {
    tokenizer: Tokenizer,
    current_token: Token,
}

impl Parser {
    /// The expression text being parsed.
    pub closed spec fn input(self) -> Seq<char> {
        self.tokenizer.input()
    }

    /// Position of the tokenizer's cursor, just past the lookahead token.
    pub closed spec fn position(self) -> nat {
        self.tokenizer.position()
    }

    /// The lookahead token.
    pub closed spec fn current_model(self) -> TokenModel {
        self.current_token@
    }

    /// The cursor never leaves the input.
    pub closed spec fn wf(self) -> bool {
        self.tokenizer.wf()
    }

    /// A parser over `expr`, with the first token already fetched; a
    /// lexical fault in that first token is reported at once.
    pub fn new(expr: &str) -> (r: Result<Parser, LexError>)
        ensures
            match lex_token(expr@, 0) {
                Ok((t, j)) => r matches Ok(p) && p.wf() && p.input() == expr@ && p.current_model()
                    == t && p.position() == j,
                Err((e, _)) => r matches Err(e2) && e2 == e,
            },
    {
        let mut tokenizer = Tokenizer::new(expr);
        let first = tokenizer.next();
        match first {
            Ok(first_token) => Ok(Parser { tokenizer, current_token: first_token }),
            Err(e) => Err(e),
        }
    }

    /// Parses one full expression at `Default` precedence, as
    /// [`parse_expr`] describes, and returns its tree. On a fault the
    /// parser is left mid-input and the fault is final: the text has no
    /// tree.
    pub fn parse(&mut self) -> (r: Result<Node, ParseError>)
        requires
            old(self).wf(),
        ensures
            final(self).wf(),
            final(self).input() == old(self).input(),
            old(self).position() <= final(self).position(),
            match parse_expr(
                old(self).input(),
                old(self).current_model(),
                old(self).position(),
                OperPrec::Default,
            ) {
                Ok(step) => r matches Ok(n) && n@ == step.0 && final(self).current_model()
                    == step.1 && final(self).position() == step.2,
                Err(e) => r matches Err(e2) && e2 == e,
            },
    {
        self.generate_ast(OperPrec::Default)
    }

    /// The climbing loop of [`parse_expr`]: one primary term, then folds
    /// while the lookahead operator binds more tightly than `oper_prec`.
    fn generate_ast(&mut self, oper_prec: OperPrec) -> (r: Result<Node, ParseError>)
        requires
            old(self).wf(),
        ensures
            final(self).wf(),
            final(self).input() == old(self).input(),
            old(self).position() <= final(self).position(),
            match parse_expr(
                old(self).input(),
                old(self).current_model(),
                old(self).position(),
                oper_prec,
            ) {
                Ok(step) => r matches Ok(n) && n@ == step.0 && final(self).current_model()
                    == step.1 && final(self).position() == step.2,
                Err(e) => r matches Err(e2) && e2 == e,
            },
        decreases chars_left(self.input(), self.position()), 3int,
    {
        let ghost s = self.input();
        let ghost cur0 = self.current_model();
        let ghost i0 = self.position();
        let ghost target = parse_expr(s, cur0, i0, oper_prec);
        let mut left_node: Node;
        match self.parse_token() {
            Ok(n) => {
                left_node = n;
            },
            Err(e) => {
                return Err(e);
            },
        }
        proof {
            assert(pos_max(i0, self.position()) == self.position());
        }
        loop
            invariant
                s == old(self).input(),
                cur0 == old(self).current_model(),
                i0 == old(self).position(),
                target == parse_expr(s, cur0, i0, oper_prec),
                self.wf(),
                self.input() == s,
                i0 <= self.position(),
                target == parse_climb(
                    s,
                    left_node@,
                    self.current_model(),
                    self.position(),
                    oper_prec,
                ),
            ensures
                self.wf(),
                self.input() == s,
                i0 <= self.position(),
                target == parse_climb(
                    s,
                    left_node@,
                    self.current_model(),
                    self.position(),
                    oper_prec,
                ),
                prec_num(oper_prec) >= prec_num(token_prec(self.current_model())),
            decreases chars_left(s, self.position()), 2int,
        {
            let prec_cur = self.current_token.get_oper_prec();
            if prec_level(oper_prec) >= prec_level(prec_cur) {
                break ;
            }
            let ghost left_view = left_node@;
            let ghost cur_pre = self.current_model();
            let ghost i_pre = self.position();
            proof {
                lemma_climb_step(s, left_view, cur_pre, i_pre, oper_prec);
            }
            match self.convert_token_to_node(left_node) {
                Ok(n2) => {
                    left_node = n2;
                },
                Err(e) => {
                    return Err(e);
                },
            }
        }
        Ok(left_node)
    }

    /// One operator fold, as [`parse_fold`] describes: consumes the
    /// operator standing in the lookahead, parses the right-hand operand at
    /// the operator's precedence (`^` one step lower, so that it nests to
    /// the right), and builds the binary node.
    fn convert_token_to_node(&mut self, left_node: Node) -> (r: Result<Node, ParseError>)
        requires
            old(self).wf(),
        ensures
            final(self).wf(),
            final(self).input() == old(self).input(),
            old(self).position() <= final(self).position(),
            r is Ok ==> old(self).position() < final(self).position(),
            match parse_fold(
                old(self).input(),
                left_node@,
                old(self).current_model(),
                old(self).position(),
            ) {
                Ok(step) => r matches Ok(n) && n@ == step.0 && final(self).current_model()
                    == step.1 && final(self).position() == step.2,
                Err(e) => r matches Err(e2) && e2 == e,
            },
        decreases chars_left(self.input(), self.position()), 1int,
    {
        let ghost s = self.input();
        let ghost i0 = self.position();
        match self.current_token {
            Token::Add => {
                if let Err(e) = self.get_next_token() {
                    return Err(ParseError::Lex(e));
                }
                match &self.current_token {
                    Token::EOF => {
                        return Err(ParseError::UnsupportedToken);
                    },
                    _ => {},
                }
                proof {
                    lemma_lex_token_progress(s, i0);
                }
                let right_node = match self.generate_ast(OperPrec::AddSub) {
                    Ok(n) => n,
                    Err(e) => {
                        return Err(e);
                    },
                };
                Ok(Node::Add(Box::new(left_node), Box::new(right_node)))
            },
            Token::Subtract => {
                if let Err(e) = self.get_next_token() {
                    return Err(ParseError::Lex(e));
                }
                match &self.current_token {
                    Token::EOF => {
                        return Err(ParseError::UnsupportedToken);
                    },
                    _ => {},
                }
                proof {
                    lemma_lex_token_progress(s, i0);
                }
                let right_node = match self.generate_ast(OperPrec::AddSub) {
                    Ok(n) => n,
                    Err(e) => {
                        return Err(e);
                    },
                };
                Ok(Node::Subtract(Box::new(left_node), Box::new(right_node)))
            },
            Token::Divide => {
                if let Err(e) = self.get_next_token() {
                    return Err(ParseError::Lex(e));
                }
                match &self.current_token {
                    Token::EOF => {
                        return Err(ParseError::UnsupportedToken);
                    },
                    _ => {},
                }
                proof {
                    lemma_lex_token_progress(s, i0);
                }
                let right_node = match self.generate_ast(OperPrec::MulDiv) {
                    Ok(n) => n,
                    Err(e) => {
                        return Err(e);
                    },
                };
                Ok(Node::Divide(Box::new(left_node), Box::new(right_node)))
            },
            Token::Multiply => {
                if let Err(e) = self.get_next_token() {
                    return Err(ParseError::Lex(e));
                }
                match &self.current_token {
                    Token::EOF => {
                        return Err(ParseError::UnsupportedToken);
                    },
                    _ => {},
                }
                proof {
                    lemma_lex_token_progress(s, i0);
                }
                let right_node = match self.generate_ast(OperPrec::MulDiv) {
                    Ok(n) => n,
                    Err(e) => {
                        return Err(e);
                    },
                };
                Ok(Node::Multiply(Box::new(left_node), Box::new(right_node)))
            },
            Token::Caret => {
                if let Err(e) = self.get_next_token() {
                    return Err(ParseError::Lex(e));
                }
                match &self.current_token {
                    Token::EOF => {
                        return Err(ParseError::UnsupportedToken);
                    },
                    _ => {},
                }
                proof {
                    lemma_lex_token_progress(s, i0);
                }
                // the right-hand side of `^` is parsed one step below Power,
                // so a chain of carets nests to the right
                let right_node = match self.generate_ast(OperPrec::MulDiv) {
                    Ok(n) => n,
                    Err(e) => {
                        return Err(e);
                    },
                };
                Ok(Node::Power(Box::new(left_node), Box::new(right_node)))
            },
            _ => Err(ParseError::UnsupportedToken),
        }
    }

    /// One primary term, as [`parse_primary`] describes.
    fn parse_token(&mut self) -> (r: Result<Node, ParseError>)
        requires
            old(self).wf(),
        ensures
            final(self).wf(),
            final(self).input() == old(self).input(),
            old(self).position() <= final(self).position(),
            match parse_primary(
                old(self).input(),
                old(self).current_model(),
                old(self).position(),
            ) {
                Ok(step) => r matches Ok(n) && n@ == step.0 && final(self).current_model()
                    == step.1 && final(self).position() == step.2,
                Err(e) => r matches Err(e2) && e2 == e,
            },
        decreases chars_left(self.input(), self.position()), 2int,
    {
        let ghost s = self.input();
        let ghost i0 = self.position();
        match self.current_token {
            Token::Number(_) => {
                let mut taken = Token::EOF;
                core::mem::swap(&mut taken, &mut self.current_token);
                if let Err(e) = self.get_next_token() {
                    return Err(ParseError::Lex(e));
                }
                match taken {
                    Token::Number(literal) => Ok(Node::Number(literal)),
                    _ => Err(ParseError::UnsupportedToken),  // cannot happen: `taken` is the numeric token
                }
            },
            Token::Subtract => {
                if let Err(e) = self.get_next_token() {
                    return Err(ParseError::Lex(e));
                }
                match &self.current_token {
                    Token::EOF => {
                        return Err(ParseError::UnsupportedToken);
                    },
                    _ => {},
                }
                proof {
                    lemma_lex_token_progress(s, i0);
                }
                let operand = match self.generate_ast(OperPrec::Negative) {
                    Ok(n) => n,
                    Err(e) => {
                        return Err(e);
                    },
                };
                Ok(Node::Negative(Box::new(operand)))
            },
            Token::LeftParen => {
                if let Err(e) = self.get_next_token() {
                    return Err(ParseError::Lex(e));
                }
                match &self.current_token {
                    Token::EOF => {
                        return Err(ParseError::UnsupportedToken);
                    },
                    _ => {},
                }
                proof {
                    lemma_lex_token_progress(s, i0);
                }
                let ghost i1 = self.position();
                let mut node = match self.generate_ast(OperPrec::Default) {
                    Ok(n) => n,
                    Err(e) => {
                        return Err(e);
                    },
                };
                match &self.current_token {
                    Token::RightParen => {},
                    _ => {
                        return Err(ParseError::MissingRightParen);
                    },
                }
                let ghost i2 = self.position();
                proof {
                    assert(pos_max(i1, i2) == i2);
                }
                if let Err(e) = self.get_next_token() {
                    return Err(ParseError::Lex(e));
                }
                let follows_group = match &self.current_token {
                    Token::LeftParen => true,
                    _ => false,
                };
                if follows_group {
                    proof {
                        lemma_lex_token_progress(s, i2);
                    }
                    let right_node = match self.generate_ast(OperPrec::MulDiv) {
                        Ok(n) => n,
                        Err(e) => {
                            return Err(e);
                        },
                    };
                    node = Node::Multiply(Box::new(node), Box::new(right_node));
                }
                Ok(node)
            },
            _ => Err(ParseError::UnsupportedToken),
        }
    }

    /// Pulls the next token from the tokenizer into the lookahead.
    fn get_next_token(&mut self) -> (r: Result<(), LexError>)
        requires
            old(self).wf(),
        ensures
            final(self).wf(),
            final(self).input() == old(self).input(),
            old(self).position() <= final(self).position(),
            match lex_token(old(self).input(), old(self).position()) {
                Ok((t, j)) => r is Ok && final(self).current_model() == t && final(self).position()
                    == j,
                Err((e, j)) => r matches Err(e2) && e2 == e && final(self).position() == j,
            },
    {
        let token = self.tokenizer.next();
        match token {
            Ok(token) => {
                self.current_token = token;
                Ok(())
            },
            Err(e) => Err(e),
        }
    }
}

} // verus!
