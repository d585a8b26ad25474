use vstd::prelude::*;

verus! {

/// The connective symbols of the supported logics. Each has a Unicode
/// character and an ASCII alias; the two notations must parse identically,
/// and this table is the wire contract a parser must match.
#[derive(Debug, Clone, Copy, PartialEq, Eq, Structural, Hash)]
pub enum Symbol {
    Not,
    And,
    Or,
    MatImpl,
    MatEquiv,
    Possib,
    Necess,
}

impl Symbol {
    /// The Unicode character of the symbol.
    pub fn symbol(self) -> (r: char)
        ensures
            r == (match self {
                Symbol::Not => '\u{ac}',
                Symbol::And => '\u{2227}',
                Symbol::Or => '\u{2228}',
                Symbol::MatImpl => '\u{2283}',
                Symbol::MatEquiv => '\u{2261}',
                Symbol::Possib => '\u{25c7}',
                Symbol::Necess => '\u{25a1}',
            }),
    {
        match self {
            Symbol::Not => '¬',
            Symbol::And => '∧',
            Symbol::Or => '∨',
            Symbol::MatImpl => '⊃',
            Symbol::MatEquiv => '≡',
            Symbol::Possib => '◇',
            Symbol::Necess => '□',
        }
    }

    /// The ASCII alias of the symbol.
    pub fn ascii_str(&self) -> (r: &'static str)
        ensures
            r@ == (match self {
                Symbol::Not => "!"@,
                Symbol::And => "&&"@,
                Symbol::Or => "||"@,
                Symbol::MatImpl => ">"@,
                Symbol::MatEquiv => "=="@,
                Symbol::Possib => "<>"@,
                Symbol::Necess => "[]"@,
            }),
    {
        match self {
            Symbol::Not => "!",
            Symbol::And => "&&",
            Symbol::Or => "||",
            Symbol::MatImpl => ">",
            Symbol::MatEquiv => "==",
            Symbol::Possib => "<>",
            Symbol::Necess => "[]",
        }
    }

    /// The human-readable name of the symbol.
    pub fn name(self) -> (r: &'static str)
        ensures
            r@ == (match self {
                Symbol::Not => "Not"@,
                Symbol::And => "And"@,
                Symbol::Or => "Or"@,
                Symbol::MatImpl => "Material implication"@,
                Symbol::MatEquiv => "Material equivalence"@,
                Symbol::Possib => "Possibility"@,
                Symbol::Necess => "Necessity"@,
            }),
    {
        match self {
            Symbol::Not => "Not",
            Symbol::And => "And",
            Symbol::Or => "Or",
            Symbol::MatImpl => "Material implication",
            Symbol::MatEquiv => "Material equivalence",
            Symbol::Possib => "Possibility",
            Symbol::Necess => "Necessity",
        }
    }

    /// Every symbol, in the order a textual replacement must try them:
    /// material implication comes after possibility because the ASCII alias
    /// of the former is a suffix of the latter's.
    pub fn iter() -> (r: Vec<Symbol>)
        ensures
            r@ == seq![
                Symbol::Not,
                Symbol::And,
                Symbol::Or,
                Symbol::MatEquiv,
                Symbol::Possib,
                Symbol::Necess,
                Symbol::MatImpl,
            ],
    {
        let mut out: Vec<Symbol> = Vec::new();
        out.push(Symbol::Not);
        out.push(Symbol::And);
        out.push(Symbol::Or);
        out.push(Symbol::MatEquiv);
        out.push(Symbol::Possib);
        out.push(Symbol::Necess);
        out.push(Symbol::MatImpl);
        proof {
            assert(out@ =~= seq![
                Symbol::Not,
                Symbol::And,
                Symbol::Or,
                Symbol::MatEquiv,
                Symbol::Possib,
                Symbol::Necess,
                Symbol::MatImpl,
            ]);
        }
        out
    }
}

} // verus!
