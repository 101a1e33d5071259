//! One searchable record: an id and the command's text, parsed out of one
//! raw history block, scored against a query, and cut to fit one terminal
//! line.
use vstd::prelude::*;

use crate::matcher;
use crate::text;

verus! {

/// The error a raw history block can produce: it fails the structural check
/// of a record.
#[derive(Debug, Clone)]
pub enum Errors {
    ParseCommandError,
}

impl Errors {
    /// The error's text, for reporting outside the library.
    pub fn message(&self) -> (r: &'static str)
        ensures
            r@ == "fail to parse command"@,
    {
        "fail to parse command"
    }
}

/// One candidate: a monotonic id (order of appearance in the source) and the
/// command's text. Immutable once constructed.
#[derive(Debug)]
pub struct Command {
    pub id: u32,
    pub command: String,
}

impl Clone for Command {
    fn clone(&self) -> (r: Self)
        ensures
            r == *self,
    {
        Command { id: self.id, command: self.command.clone() }
    }
}

/// A raw block parses into a record exactly when it is long enough, its
/// characters 2 through 11 are all digits, and those digits fit a `u32`.
pub open spec fn block_parses(s: Seq<char>) -> bool {
    &&& s.len() >= 15
    &&& text::all_digits(s.subrange(2, 12))
    &&& text::digits_val(s.subrange(2, 12)) <= u32::MAX
}

/// The id a well-formed block carries.
pub open spec fn block_id(s: Seq<char>) -> int {
    text::digits_val(s.subrange(2, 12))
}

/// The command text a well-formed block carries: everything after the 15th
/// character, trimmed of blank ends.
pub open spec fn block_text(s: Seq<char>) -> Seq<char> {
    text::trimmed(s.skip(15))
}

/// True when character `i` of `s` is one of the blank characters.
fn char_is_space(s: &str, i: usize) -> (r: bool)
    requires
        i < s@.len(),
    ensures
        r == text::is_space(s@[i as int]),
{
    let c = s.get_char(i);
    c == ' ' || c == '\t' || c == '\n' || c == '\r'
}

impl Command {
    /// A record built directly from its parts.
    pub fn new(id: u32, command: String) -> (r: Command)
        ensures
            r.id == id,
            r.command == command,
    {
        Command { id, command }
    }

    /// Parses one raw history block: characters 2 through 11 carry the id as
    /// decimal digits, everything from character 15 on is the command text,
    /// trimmed. A block failing that shape is rejected.
    pub fn from_string(s: &str) -> (r: Result<Command, Errors>)
        ensures
            r is Ok <==> block_parses(s@),
            r is Ok ==> r->Ok_0.id == block_id(s@) && r->Ok_0.command@ == block_text(s@),
            r is Err ==> r->Err_0 is ParseCommandError,
    {
        let n = s.unicode_len();
        if n < 15 {
            return Err(Errors::ParseCommandError);
        }
        let mut val: u64 = 0;
        let mut i: usize = 2;
        while i < 12
            invariant
                2 <= i <= 12,
                n == s@.len(),
                n >= 15,
                text::all_digits(s@.subrange(2, i as int)),
                val == text::digits_val(s@.subrange(2, i as int)),
                val <= u32::MAX,
            decreases 12 - i,
        {
            let c = s.get_char(i);
            let cu = c as u32;
            if cu < 48 || cu > 57 {
                proof {
                    assert(!text::is_digit(s@[i as int]));
                    assert(s@.subrange(2, 12)[i - 2] == s@[i as int]);
                    assert(!text::all_digits(s@.subrange(2, 12)));
                }
                return Err(Errors::ParseCommandError);
            }
            let d = (cu - 48) as u64;
            let next_val = val * 10 + d;
            proof {
                let prefix = s@.subrange(2, i as int);
                let prefix1 = s@.subrange(2, i + 1);
                assert(prefix1.drop_last() =~= prefix);
                assert(prefix1.last() == s@[i as int]);
                assert(next_val == text::digits_val(prefix1));
                assert(text::all_digits(prefix1));
            }
            if next_val > 0xFFFF_FFFF {
                proof {
                    if text::all_digits(s@.subrange(2, 12)) {
                        text::lemma_digits_val_prefix_le(s@.subrange(2, 12), i + 1 - 2);
                        assert(s@.subrange(2, 12).take(i + 1 - 2) =~= s@.subrange(2, i + 1));
                    }
                }
                return Err(Errors::ParseCommandError);
            }
            val = next_val;
            i = i + 1;
        }
        proof {
            assert(s@.subrange(2, 12) =~= s@.subrange(2, i as int));
        }
        let mut start: usize = 15;
        let mut end: usize = n;
        while start < end && char_is_space(s, start)
            invariant
                15 <= start <= end,
                end == n == s@.len(),
                text::drop_leading_spaces(s@.skip(15)) == text::drop_leading_spaces(
                    s@.subrange(start as int, end as int),
                ),
            decreases end - start,
        {
            proof {
                let cur = s@.subrange(start as int, end as int);
                let nxt = s@.subrange(start + 1, end as int);
                assert(cur.skip(1) =~= nxt);
            }
            start = start + 1;
        }
        proof {
            let cur = s@.subrange(start as int, end as int);
            assert(text::drop_leading_spaces(cur) == cur);
            assert(s@.skip(15) =~= s@.subrange(15, n as int));
        }
        while end > start && char_is_space(s, end - 1)
            invariant
                15 <= start <= end <= n,
                n == s@.len(),
                text::trimmed(s@.skip(15)) == text::drop_trailing_spaces(
                    s@.subrange(start as int, end as int),
                ),
            decreases end,
        {
            proof {
                let cur = s@.subrange(start as int, end as int);
                let nxt = s@.subrange(start as int, end - 1);
                assert(cur.last() == s@[end - 1]);
                assert(cur.drop_last() =~= nxt);
            }
            end = end - 1;
        }
        proof {
            let cur = s@.subrange(start as int, end as int);
            assert(text::drop_trailing_spaces(cur) == cur);
        }
        let cmd = s.substring_char(start, end);
        Ok(Command { id: val as u32, command: cmd.to_owned() })
    }

    /// The record's score against query `s`: `None` when the query is not a
    /// smart-case subsequence of the text, the skim score otherwise. An
    /// empty query always matches; a match means the query occurs in the
    /// text in order, exactly so whenever the query holds an ASCII capital
    /// or the text holds none.
    pub fn get_match_score(&self, s: &String) -> (r: Option<i64>)
        ensures
            r == matcher::skim_score(self.command@, s@),
            r is Some <==> matcher::skim_matches(self.command@, s@),
            s@.len() == 0 ==> r == Some(0i64),
            r is Some && (matcher::has_ascii_upper(s@) || !matcher::has_ascii_upper(
                self.command@,
            )) ==> matcher::is_subsequence(s@, self.command@),
    {
        let r = matcher::skim_fuzzy_match(self.command.as_str(), s.as_str());
        proof {
            if r is Some && (matcher::has_ascii_upper(s@) || !matcher::has_ascii_upper(
                self.command@,
            )) {
                matcher::lemma_subseq_match_exact(
                    self.command@,
                    s@,
                    matcher::has_ascii_upper(s@),
                );
            }
        }
        r
    }

    /// The record's text made one line (line breaks become spaces, carriage
    /// returns vanish) and cut to at most `max_len` characters.
    pub fn truncate_command(&self, max_len: u16) -> (r: String)
        ensures
            r@ == text::truncated_line(self.command@, max_len as int),
    {
        let cmd = self.command.as_str();
        let n = cmd.unicode_len();
        let mut out: Vec<char> = Vec::new();
        let mut i: usize = 0;
        while i < n
            invariant
                0 <= i <= n,
                n == self.command@.len(),
                cmd@ == self.command@,
                out@ == text::cleaned(self.command@.take(i as int)),
            decreases n - i,
        {
            let c = cmd.get_char(i);
            proof {
                let pre = self.command@.take(i as int);
                let pre1 = self.command@.take(i + 1);
                assert(pre1.drop_last() =~= pre);
                assert(pre1.last() == self.command@[i as int]);
            }
            if c == '\r' {
            } else if c == '\n' {
                out.push(' ');
            } else {
                out.push(c);
            }
            i = i + 1;
        }
        proof {
            assert(self.command@.take(n as int) =~= self.command@);
        }
        let limit = if out.len() < max_len as usize {
            out.len()
        } else {
            max_len as usize
        };
        out.truncate(limit);
        proof {
            let full = text::cleaned(self.command@);
            if full.len() <= max_len as int {
                assert(full.subrange(0, limit as int) =~= full);
            } else {
                assert(full.subrange(0, limit as int) =~= full.take(max_len as int));
            }
        }
        text::string_from_chars(&out)
    }
}
} // verus!
