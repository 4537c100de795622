//! The policy deciding how line breaks and indentation are written.

use vstd::prelude::*;
use vstd::string::StringExecFns;

verus! {

/// A sequence of `n` copies of one character.
pub open spec fn repeat_char(c: char, n: nat) -> Seq<char> {
    Seq::new(n, |i: int| c)
}

/// How the SNBT writer breaks lines: one tab per nesting level, a fixed
/// number of spaces per level, or no line breaks at all.
#[derive(Debug, Copy, Clone)]
pub enum IndentationType {
    Tabs,
    Spaces(u8),
    SingleLine,
}

/// The text that beginning a new line at nesting level `level` emits.
pub open spec fn line_break(ind: IndentationType, level: u16) -> Seq<char> {
    match ind {
        IndentationType::Tabs => seq!['\n'] + repeat_char('\t', level as nat),
        IndentationType::Spaces(spaces) => seq!['\n'] + repeat_char(
            ' ',
            (level * spaces) as nat,
        ),
        IndentationType::SingleLine => Seq::empty(),
    }
}

/// Appends `count` copies of a one-character string.
fn append_repeated(target: &mut String, piece: &str, count: usize)
    requires
        piece@.len() == 1,
    ensures
        final(target)@ == old(target)@ + repeat_char(piece@[0], count as nat),
{
    let mut i: usize = 0;
    while i < count
        invariant
            piece@.len() == 1,
            i <= count,
            target@ == old(target)@ + repeat_char(piece@[0], i as nat),
        decreases count - i,
    {
        target.append(piece);
        i = i + 1;
        proof {
            assert(target@ =~= old(target)@ + repeat_char(piece@[0], i as nat));
        }
    }
    proof {
        assert(old(target)@ + repeat_char(piece@[0], 0) =~= old(target)@);
    }
}

impl IndentationType {
    /// Begins a new output line at the given nesting level: a newline and
    /// the level's indentation, or nothing at all under `SingleLine`.
    pub fn begin_line(&self, target: &mut String, level: u16)
        ensures
            final(target)@ == old(target)@ + line_break(*self, level),
    {
        match self {
            IndentationType::Tabs => {
                proof {
                    reveal_strlit("\n");
                    reveal_strlit("\t");
                }
                target.append("\n");
                append_repeated(target, "\t", level as usize);
                proof {
                    assert(target@ =~= old(target)@ + line_break(*self, level));
                }
            },
            IndentationType::Spaces(spaces) => {
                proof {
                    reveal_strlit("\n");
                    reveal_strlit(" ");
                }
                target.append("\n");
                proof {
                    assert((level as int) * (*spaces as int) <= 65535 * 255) by (nonlinear_arith)
                        requires
                            level as int <= 65535,
                            *spaces as int <= 255,
                    ;
                }
                append_repeated(target, " ", (level as usize) * (*spaces as usize));
                proof {
                    assert(target@ =~= old(target)@ + line_break(*self, level));
                }
            },
            IndentationType::SingleLine => {
                proof {
                    assert(target@ =~= old(target)@ + line_break(*self, level));
                }
            },
        }
    }
}

} // verus!
