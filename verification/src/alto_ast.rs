//! Grammars as they are written down.
use crate::weight::Weight;
use vstd::prelude::*;

verus! {

/// A term over named symbols and numbered variables; `?1` is the first child.
#[derive(Debug)]
pub enum AstHomTerm {
    Symbol(String, Vec<AstHomTerm>),
    Variable(usize),
}

/// What a term says.
pub enum HomAst {
    Symbol(Seq<char>, Seq<HomAst>),
    Variable(usize),
}

/// What a term says.
pub open spec fn hom_ast(t: AstHomTerm) -> HomAst
    decreases t,
{
    match t {
        AstHomTerm::Symbol(label, children) => HomAst::Symbol(
            label@,
            Seq::new(
                children@.len(),
                |i: int|
                    if 0 <= i < children@.len() {
                        hom_ast(children@[i])
                    } else {
                        HomAst::Variable(0)
                    },
            ),
        ),
        AstHomTerm::Variable(v) => HomAst::Variable(v),
    }
}

/// What terms say.
pub open spec fn hom_asts(ts: Seq<AstHomTerm>) -> Seq<HomAst> {
    Seq::new(ts.len(), |i: int| hom_ast(ts[i]))
}

/// What an application says.
pub proof fn lemma_hom_symbol(label: String, children: Vec<AstHomTerm>)
    ensures
        hom_ast(AstHomTerm::Symbol(label, children)) == HomAst::Symbol(
            label@,
            hom_asts(children@),
        ),
{
    let t = hom_ast(AstHomTerm::Symbol(label, children));
    assert(t->Symbol_1 =~= hom_asts(children@));
}

impl View for AstHomTerm {
    type V = HomAst;

    open spec fn view(&self) -> HomAst {
        hom_ast(*self)
    }
}

/// A leaf.
pub fn leaf(label: String) -> (t: AstHomTerm)
    ensures
        t@ == HomAst::Symbol(label@, Seq::empty()),
{
    let children: Vec<AstHomTerm> = Vec::new();
    proof {
        lemma_hom_symbol(label, children);
        assert(hom_asts(children@) =~= Seq::empty());
    }
    AstHomTerm::Symbol(label, children)
}

/// A node with one child.
pub fn unary(label: String, child: AstHomTerm) -> (t: AstHomTerm)
    ensures
        t@ == HomAst::Symbol(label@, seq![child@]),
{
    let mut children: Vec<AstHomTerm> = Vec::new();
    children.push(child);
    proof {
        lemma_hom_symbol(label, children);
        assert(hom_asts(children@) =~= seq![child@]);
    }
    AstHomTerm::Symbol(label, children)
}

/// A node with two children.
pub fn binary(label: String, left: AstHomTerm, right: AstHomTerm) -> (t: AstHomTerm)
    ensures
        t@ == HomAst::Symbol(label@, seq![left@, right@]),
{
    let mut children: Vec<AstHomTerm> = Vec::new();
    children.push(left);
    children.push(right);
    proof {
        lemma_hom_symbol(label, children);
        assert(hom_asts(children@) =~= seq![left@, right@]);
    }
    AstHomTerm::Symbol(label, children)
}

/// A node with any number of children.
pub fn symbol(label: String, children: Vec<AstHomTerm>) -> (t: AstHomTerm)
    ensures
        t@ == HomAst::Symbol(label@, hom_asts(children@)),
{
    proof {
        lemma_hom_symbol(label, children);
    }
    AstHomTerm::Symbol(label, children)
}

/// A state of the grammar; a final one is marked.
#[derive(Debug)]
pub struct AstState {
    pub name: String,
    pub is_final: bool,
}

impl View for AstState {
    type V = (Seq<char>, bool);

    open spec fn view(&self) -> (Seq<char>, bool) {
        (self.name@, self.is_final)
    }
}

/// What states say.
pub open spec fn state_views(list: Seq<AstState>) -> Seq<(Seq<char>, bool)> {
    Seq::new(list.len(), |i: int| list[i]@)
}

/// A rule of the grammar automaton.
#[derive(Debug)]
pub struct AstAutoRule {
    pub parent: AstState,
    pub symbol: String,
    pub children: Vec<AstState>,
    pub weight: Option<Weight>,
}

/// The image of a rule in one interpretation.
#[derive(Debug)]
pub struct AstHomRule {
    pub interpretation: String,
    pub term: AstHomTerm,
}

impl View for AstHomRule {
    type V = (Seq<char>, HomAst);

    open spec fn view(&self) -> (Seq<char>, HomAst) {
        (self.interpretation@, self.term@)
    }
}

/// What images say.
pub open spec fn hom_views(list: Seq<AstHomRule>) -> Seq<(Seq<char>, HomAst)> {
    Seq::new(list.len(), |i: int| list[i]@)
}

/// A rule with its images.
#[derive(Debug)]
pub struct AstRule {
    pub auto: AstAutoRule,
    pub homs: Vec<AstHomRule>,
}

/// What a rule says.
pub struct RuleAst {
    pub parent: Seq<char>,
    pub is_final: bool,
    pub symbol: Seq<char>,
    pub children: Seq<(Seq<char>, bool)>,
    pub weight: Option<Weight>,
    pub homs: Seq<(Seq<char>, HomAst)>,
}

impl View for AstRule {
    type V = RuleAst;

    open spec fn view(&self) -> RuleAst {
        RuleAst {
            parent: self.auto.parent.name@,
            is_final: self.auto.parent.is_final,
            symbol: self.auto.symbol@,
            children: state_views(self.auto.children@),
            weight: self.auto.weight,
            homs: hom_views(self.homs@),
        }
    }
}

/// What rules say.
pub open spec fn rule_views(list: Seq<AstRule>) -> Seq<RuleAst> {
    Seq::new(list.len(), |i: int| list[i]@)
}

/// An interpretation and the name of its algebra.
#[derive(Debug)]
pub struct AstInterpretationDecl {
    pub name: String,
    pub algebra: String,
}

impl View for AstInterpretationDecl {
    type V = (Seq<char>, Seq<char>);

    open spec fn view(&self) -> (Seq<char>, Seq<char>) {
        (self.name@, self.algebra@)
    }
}

/// What interpretations say.
pub open spec fn interpretation_views(list: Seq<AstInterpretationDecl>) -> Seq<
    (Seq<char>, Seq<char>),
> {
    Seq::new(list.len(), |i: int| list[i]@)
}

/// A grammar: its interpretations and its rules.
#[derive(Debug)]
pub struct AstIrtg {
    pub interpretations: Vec<AstInterpretationDecl>,
    pub rules: Vec<AstRule>,
}

/// What a grammar says.
pub struct IrtgAst {
    pub interpretations: Seq<(Seq<char>, Seq<char>)>,
    pub rules: Seq<RuleAst>,
}

impl View for AstIrtg {
    type V = IrtgAst;

    open spec fn view(&self) -> IrtgAst {
        IrtgAst {
            interpretations: interpretation_views(self.interpretations@),
            rules: rule_views(self.rules@),
        }
    }
}

/// The digit for a number below ten.
pub open spec fn digit_char(d: nat) -> char {
    (48 + d) as char
}

/// A number written in decimal.
pub open spec fn decimal(n: nat) -> Seq<char>
    decreases n,
{
    if n < 10 {
        seq![digit_char(n)]
    } else {
        decimal(n / 10).push(digit_char(n % 10))
    }
}

fn digit(d: usize) -> (c: char)
    requires
        d < 10,
    ensures
        c == digit_char(d as nat),
{
    if d == 0 {
        '0'
    } else if d == 1 {
        '1'
    } else if d == 2 {
        '2'
    } else if d == 3 {
        '3'
    } else if d == 4 {
        '4'
    } else if d == 5 {
        '5'
    } else if d == 6 {
        '6'
    } else if d == 7 {
        '7'
    } else if d == 8 {
        '8'
    } else {
        '9'
    }
}

/// Writes a number in decimal.
pub fn decimal_text(n: usize) -> (s: String)
    ensures
        s@ == decimal(n as nat),
    decreases n,
{
    let mut s = String::new();
    if n >= 10 {
        s = decimal_text(n / 10);
        s.push(digit(n % 10));
    } else {
        s.push(digit(n));
        assert(s@ =~= seq![digit_char(n as nat)]);
    }
    s
}

/// The number that decimal digits stand for.
pub open spec fn read_decimal(s: Seq<char>) -> nat
    decreases s.len(),
{
    if s.len() == 0 {
        0
    } else {
        10 * read_decimal(s.drop_last()) + (s.last() as nat - '0' as nat) as nat
    }
}

/// Decimal digits stand for the number that was written, and no digit is superfluous.
pub proof fn law_decimal_reads_back(n: nat)
    ensures
        read_decimal(decimal(n)) == n,
        decimal(n).len() > 0,
        forall|i: int| 0 <= i < decimal(n).len() ==> '0' <= #[trigger] decimal(n)[i] <= '9',
        n > 0 ==> decimal(n)[0] != '0',
    decreases n,
{
    let s = decimal(n);
    if n < 10 {
        assert(s.drop_last() =~= Seq::empty());
        assert(read_decimal(s.drop_last()) == 0);
        assert(s[0] as nat == 48 + n);
    } else {
        law_decimal_reads_back(n / 10);
        assert(s.drop_last() =~= decimal(n / 10));
        assert(s.last() as nat == 48 + n % 10);
        assert forall|i: int| 0 <= i < s.len() implies '0' <= #[trigger] s[i] <= '9' by {
            if i < s.len() - 1 {
                assert(s[i] == decimal(n / 10)[i]);
            }
        }
        assert(s[0] == decimal(n / 10)[0]);
    }
}

} // verus!
