//! Building command lines from templates with placeholders.

use vstd::prelude::*;

use crate::assoc::{assoc_lookup, find_last, keyed};
use crate::text::{sviews, to_chars};

verus! {

/// What a placeholder argument is replaced by.
pub enum Substitution<'a> {
    /// A single argument.
    Scalar(String),
    /// Any number of arguments (possibly none).
    Array(&'a Vec<String>),
}

/// Placeholders and their replacements; a later entry for a placeholder
/// replaces an earlier one.
pub type Substitutions<'a> = Vec<(String, Substitution<'a>)>;

/// The arguments that `arg` stands for.
pub open spec fn expansion(arg: Seq<char>, subs: Seq<(Seq<char>, Substitution)>) -> Seq<Seq<char>> {
    match assoc_lookup(subs, arg) {
        Some(Substitution::Scalar(s)) => seq![s@],
        Some(Substitution::Array(a)) => sviews(a@),
        None => seq![arg],
    }
}

/// The command line `input` with each placeholder replaced.
pub open spec fn substituted(input: Seq<Seq<char>>, subs: Seq<(Seq<char>, Substitution)>) -> Seq<
    Seq<char>,
>
    decreases input.len(),
{
    if input.len() == 0 {
        seq![]
    } else {
        substituted(input.drop_last(), subs) + expansion(input.last(), subs)
    }
}

/// Substitutes arguments and constructs a command line: each argument that
/// is a placeholder of `substitute_args` is replaced by its single string or
/// by its array of strings; every other argument is kept.
pub fn substitute_command_line(input_cmd_line: &[String], substitute_args: &Substitutions) -> (r:
    Vec<String>)
    ensures
        sviews(r@) == substituted(sviews(input_cmd_line@), keyed(substitute_args@)),
{
    let ghost iv = sviews(input_cmd_line@);
    let ghost sv = keyed(substitute_args@);
    let mut out: Vec<String> = Vec::new();
    let mut i: usize = 0;
    while i < input_cmd_line.len()
        invariant
            i <= input_cmd_line@.len(),
            iv == sviews(input_cmd_line@),
            sv == keyed(substitute_args@),
            sviews(out@) == substituted(iv.take(i as int), sv),
        decreases input_cmd_line@.len() - i,
    {
        let arg = &input_cmd_line[i];
        assert(iv.take(i + 1).drop_last() =~= iv.take(i as int));
        assert(iv.take(i + 1).last() == arg@);
        let key = to_chars(arg.as_str());
        let ghost before = sviews(out@);
        match find_last(substitute_args, key.as_slice()) {
            Some(k) => {
                match &substitute_args[k].1 {
                    Substitution::Scalar(s) => {
                        out.push(s.clone());
                        assert(sviews(out@) =~= before + seq![s@]);
                    },
                    Substitution::Array(a) => {
                        let mut j: usize = 0;
                        while j < a.len()
                            invariant
                                j <= a@.len(),
                                sviews(out@) == before + sviews(a@).take(j as int),
                            decreases a@.len() - j,
                        {
                            let ghost prev = out@;
                            out.push(a[j].clone());
                            assert(sviews(out@) =~= sviews(prev).push(a@[j as int]@));
                            assert(sviews(a@).take(j + 1) =~= sviews(a@).take(j as int).push(
                                a@[j as int]@,
                            ));
                            j = j + 1;
                        }
                        assert(sviews(a@).take(j as int) =~= sviews(a@));
                    },
                }
            },
            None => {
                out.push(arg.clone());
                assert(sviews(out@) =~= before + seq![arg@]);
            },
        }
        i = i + 1;
    }
    assert(iv.take(i as int) =~= iv);
    out
}

} // verus!
