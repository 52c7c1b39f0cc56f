//! Conditions of conditional values: an operand, optionally compared with
//! `!=` or `==` to a second operand.
use vstd::prelude::*;
use crate::ast::Expr;
use crate::error::ParseError;
use crate::parser::cursor::{agrees_expr, Parser};
use crate::parser::spec::{binary, expr, expr_atom, ident_run, peek, skip_inline};
use crate::text::{is_alphanumeric, string_from_range};

verus! {

impl Parser {
    /// Reads a condition.
    pub fn parse_expr(&mut self) -> (r: Result<Expr, ParseError>)
        requires
            old(self).wf(),
        ensures
            final(self).moved_from(old(self)),
            final(self).index == expr(old(self).input@, old(self).index as int).0,
            agrees_expr(
                r,
                final(self).input@,
                final(self).index as int,
                expr(old(self).input@, old(self).index as int).1,
            ),
    {
        proof {
            reveal_strlit("!=");
            reveal_strlit("==");
        }
        self.skip_ws();
        let left = self.parse_expr_atom()?;
        self.skip_ws();
        if self.starts_with("!=") {
            return self.parse_binary_op(left, false);
        }
        if self.starts_with("==") {
            return self.parse_binary_op(left, true);
        }
        Ok(left)
    }

    /// Reads the right operand of a comparison whose operator is at the
    /// cursor, and builds `left == right` (`equals`) or `left != right`.
    fn parse_binary_op(&mut self, left: Expr, equals: bool) -> (r: Result<Expr, ParseError>)
        requires
            old(self).wf(),
            old(self).index + 2 <= old(self).input@.len(),
        ensures
            final(self).moved_from(old(self)),
            final(self).index == binary(old(self).input@, old(self).index as int, left@, equals).0,
            agrees_expr(
                r,
                final(self).input@,
                final(self).index as int,
                binary(old(self).input@, old(self).index as int, left@, equals).1,
            ),
    {
        self.advance();
        self.advance();
        self.skip_ws();
        let right = self.parse_expr_atom()?;
        if equals {
            Ok(Expr::Equals(Box::new(left), Box::new(right)))
        } else {
            Ok(Expr::NotEquals(Box::new(left), Box::new(right)))
        }
    }

    /// Reads an operand: a basic string or an identifier of alphanumerics
    /// and `_`.
    pub fn parse_expr_atom(&mut self) -> (r: Result<Expr, ParseError>)
        requires
            old(self).wf(),
        ensures
            final(self).moved_from(old(self)),
            final(self).index == expr_atom(old(self).input@, old(self).index as int).0,
            agrees_expr(
                r,
                final(self).input@,
                final(self).index as int,
                expr_atom(old(self).input@, old(self).index as int).1,
            ),
    {
        match self.peek() {
            Some(c) => {
                if c == '"' {
                    let t = self.parse_basic_string()?;
                    Ok(Expr::String(t))
                } else if is_alphanumeric(c) || c == '_' {
                    let ghost s = self.input@;
                    let start = self.index;
                    self.advance();
                    loop
                        invariant
                            self.wf(),
                            self.input@ == s,
                            s == old(self).input@,
                            start == old(self).index,
                            start < self.index,
                            ident_run(s, self.index as int) == ident_run(s, start as int),
                        ensures
                            self.wf(),
                            self.input@ == s,
                            start < self.index,
                            self.index == ident_run(s, start as int),
                        decreases s.len() - self.index,
                    {
                        match self.peek() {
                            Some(d) => {
                                if is_alphanumeric(d) || d == '_' {
                                    self.advance();
                                } else {
                                    break;
                                }
                            },
                            None => {
                                break;
                            },
                        }
                    }
                    Ok(Expr::Identifier(string_from_range(&self.input, start, self.index)))
                } else {
                    Err(self.err("invalid expression"))
                }
            },
            None => Err(self.err("invalid expression")),
        }
    }

    /// Skips spaces and tabs.
    pub fn skip_ws(&mut self)
        requires
            old(self).wf(),
        ensures
            final(self).moved_from(old(self)),
            final(self).index == skip_inline(old(self).input@, old(self).index as int),
    {
        self.skip_whitespace_inline();
    }
}

} // verus!
