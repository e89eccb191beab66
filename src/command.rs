use vstd::prelude::*;

use crate::lexer::{fields, split_fields};

verus! {

/// The operator that ended the scan of a stage (`NoOp` where none did).
#[derive(Debug, Clone, Copy, PartialEq, Eq, Structural)]
pub enum Operator {
    Pipe,
    RedirectIn,
    RedirectOut,
    AppendOut,
    Background,
    NoOp,
}

/// One pipeline stage, owning the stage that follows it.
#[derive(Debug)]
pub struct Command {
    pub name: String,
    pub args: Vec<String>,
    pub operator: Operator,
    pub next: Option<Box<Command>>,
    pub input_redirection: Option<String>,
    pub output_redirection: Option<String>,
    pub append_output: bool,
    pub background: bool,
}

/// A stage as plain values.
pub struct CommandModel {
    pub name: Seq<char>,
    pub args: Seq<Seq<char>>,
    pub operator: Operator,
    pub next: Option<Box<CommandModel>>,
    pub input_redirection: Option<Seq<char>>,
    pub output_redirection: Option<Seq<char>>,
    pub append_output: bool,
    pub background: bool,
}

/// An optional string as an optional sequence of characters.
pub open spec fn opt_view(o: Option<String>) -> Option<Seq<char>> {
    match o {
        Some(s) => Some(s@),
        None => None,
    }
}

/// Strings as sequences of characters.
pub open spec fn strings_view(v: Seq<String>) -> Seq<Seq<char>> {
    v.map_values(|s: String| s@)
}

impl Command {
    /// The stage and the stages after it, as plain values.
    pub open spec fn view(&self) -> CommandModel
        decreases self,
    {
        CommandModel {
            name: self.name@,
            args: strings_view(self.args@),
            operator: self.operator,
            next: match self.next {
                Some(b) => Some(Box::new((*b).view())),
                None => None,
            },
            input_redirection: opt_view(self.input_redirection),
            output_redirection: opt_view(self.output_redirection),
            append_output: self.append_output,
            background: self.background,
        }
    }

    /// A command made of the Unicode-whitespace-separated words of a non-empty line:
    /// the first word is the name (empty where the line is all whitespace)
    /// and the others are the arguments.
    pub fn new(command: &str) -> (r: Self)
        requires
            command@.len() > 0,
        ensures
            fields(command@).len() > 0 ==> r@.name == fields(command@)[0],
            fields(command@).len() > 0 ==> r@.args == fields(command@).skip(1),
            fields(command@).len() == 0 ==> r@.name.len() == 0 && r@.args.len() == 0,
            r@.operator == Operator::NoOp,
            r@.next is None,
            r@.input_redirection is None,
            r@.output_redirection is None,
            !r@.append_output,
            !r@.background,
    {
        let words = split_fields(command);
        let ghost w = strings_view(words@);
        let mut name = String::new();
        let mut args: Vec<String> = Vec::new();
        let mut i: usize = 0;
        while i < words.len()
            invariant
                w == strings_view(words@),
                i <= words@.len(),
                i > 0 ==> name@ == w[0],
                i == 0 ==> name@.len() == 0,
                strings_view(args@) == if i == 0 { seq![] } else { w.subrange(1, i as int) },
            decreases words@.len() - i,
        {
            if i == 0 {
                name = words[0].clone();
            } else {
                let ghost before = strings_view(args@);
                args.push(words[i].clone());
                assert(strings_view(args@) =~= before.push(w[i as int]));
                assert(w.subrange(1, i + 1) =~= w.subrange(1, i as int).push(w[i as int]));
            }
            i = i + 1;
            assert(i == 1 ==> w.subrange(1, 1) =~= Seq::<Seq<char>>::empty());
        }
        assert(i > 0 ==> w.subrange(1, i as int) =~= w.skip(1));
        Command {
            name,
            args,
            operator: Operator::NoOp,
            next: None,
            input_redirection: None,
            output_redirection: None,
            append_output: false,
            background: false,
        }
    }

    /// The program's name.
    pub fn bin_path(&self) -> (r: &str)
        ensures
            r@ == self.name@,
    {
        self.name.as_str()
    }

    /// The words of the command, its name first and then its arguments; a
    /// command with an empty name and no arguments has no words.
    pub fn iter(&self) -> (r: Vec<String>)
        ensures
            strings_view(r@) == if self.name@.len() == 0 && self.args@.len() == 0 {
                Seq::<Seq<char>>::empty()
            } else {
                seq![self.name@] + strings_view(self.args@)
            },
    {
        let mut out: Vec<String> = Vec::new();
        if self.name.as_str().is_empty() && self.args.len() == 0 {
            assert(strings_view(out@) =~= Seq::<Seq<char>>::empty());
            return out;
        }
        out.push(self.name.clone());
        let mut i: usize = 0;
        assert(strings_view(out@) =~= seq![self.name@] + strings_view(self.args@).take(0));
        while i < self.args.len()
            invariant
                i <= self.args@.len(),
                strings_view(out@) == seq![self.name@] + strings_view(self.args@).take(i as int),
            decreases self.args@.len() - i,
        {
            let ghost before = strings_view(out@);
            out.push(self.args[i].clone());
            assert(strings_view(out@) =~= before.push(self.args@[i as int]@));
            assert(seq![self.name@] + strings_view(self.args@).take(i + 1) =~= before.push(self.args@[i as int]@));
            i = i + 1;
        }
        assert(strings_view(self.args@).take(i as int) =~= strings_view(self.args@));
        out
    }

    /// An empty name marks an ill-formed or empty command.
    pub fn is_empty(&self) -> (r: bool)
        ensures
            r == (self.name@.len() == 0),
    {
        self.name.as_str().is_empty()
    }
}

} // verus!
