//! The error-report formatter: a structured task failure — message,
//! source name, line and column if available, captured call-stack trace
//! — rendered as a human-readable report.  A pure function of its input, fully
//! pinned down by its contract; it shares no state with the scheduler.

use vstd::prelude::*;
use vstd::string::StringExecFns;

verus! {

/// A structured failure raised during a task's execution; line and
/// column are carried when the interpreter knows them.
pub struct Diagnostic {
    pub message: String,
    pub source: String,
    pub line: Option<u64>,
    pub column: Option<u64>,
    pub trace: Vec<String>,
}

/// The decimal digit `d` as a character.
pub open spec fn digit_char(d: nat) -> char {
    if d == 0 {
        '0'
    } else if d == 1 {
        '1'
    } else if d == 2 {
        '2'
    } else if d == 3 {
        '3'
    } else if d == 4 {
        '4'
    } else if d == 5 {
        '5'
    } else if d == 6 {
        '6'
    } else if d == 7 {
        '7'
    } else if d == 8 {
        '8'
    } else {
        '9'
    }
}

/// The decimal rendering of a number, most significant digit first.
pub open spec fn decimal_spec(n: nat) -> Seq<char>
    decreases n,
{
    if n < 10 {
        seq![digit_char(n)]
    } else {
        decimal_spec(n / 10).push(digit_char(n % 10))
    }
}

/// The rendering of one captured call-stack line: two spaces of indent,
/// the frame, a line break.
pub open spec fn trace_line_spec(frame: Seq<char>) -> Seq<char> {
    "  "@ + frame + "\n"@
}

/// The rendering of the captured call-stack, in capture order.
pub open spec fn trace_spec(frames: Seq<Seq<char>>) -> Seq<char>
    decreases frames.len(),
{
    if frames.len() == 0 {
        Seq::empty()
    } else {
        trace_line_spec(frames[0]) + trace_spec(frames.drop_first())
    }
}

impl Diagnostic {
    /// The whole report: the message, the location (source name, then
    /// the line and the column when they are known), then the captured
    /// call-stack.
    pub open spec fn report_spec(self) -> Seq<char> {
        "script error: "@ + self.message@ + "\n  in "@ + self.source@ + (match self.line {
            Some(n) => ":"@ + decimal_spec(n as nat) + (match self.column {
                Some(c) => ":"@ + decimal_spec(c as nat),
                None => Seq::empty(),
            }),
            None => Seq::empty(),
        }) + "\n"@ + trace_spec(self.trace@.map_values(|f: String| f@))
    }

    /// Render the report.
    pub fn render(&self) -> (r: String)
        ensures
            r@ == self.report_spec(),
    {
        let mut r = String::from_str("script error: ");
        proof {
            reveal_strlit("script error: ");
        }
        r.append(self.message.as_str());
        r.append("\n  in ");
        r.append(self.source.as_str());
        match self.line {
            Some(n) => {
                r.append(":");
                let digits = render_u64(n);
                r.append(digits.as_str());
                match self.column {
                    Some(c) => {
                        r.append(":");
                        let col = render_u64(c);
                        r.append(col.as_str());
                    },
                    None => {},
                }
            },
            None => {},
        }
        r.append("\n");
        let mut i: usize = 0;
        proof {
            assert(self.trace@.map_values(|f: String| f@).take(0) =~= Seq::<Seq<char>>::empty());
            assert(trace_spec(Seq::<Seq<char>>::empty()) == Seq::<char>::empty());
            assert(r@ =~= ("script error: "@ + self.message@ + "\n  in "@ + self.source@
                + (match self.line {
                    Some(n) => ":"@ + decimal_spec(n as nat) + (match self.column {
                        Some(c) => ":"@ + decimal_spec(c as nat),
                        None => Seq::<char>::empty(),
                    }),
                    None => Seq::<char>::empty(),
                }) + "\n"@) + trace_spec(self.trace@.map_values(|f: String| f@).take(0 as int)));
        }
        while i < self.trace.len()
            invariant
                0 <= i <= self.trace@.len(),
                r@ == ("script error: "@ + self.message@ + "\n  in "@ + self.source@
                    + (match self.line {
                        Some(n) => ":"@ + decimal_spec(n as nat) + (match self.column {
                            Some(c) => ":"@ + decimal_spec(c as nat),
                            None => Seq::<char>::empty(),
                        }),
                        None => Seq::<char>::empty(),
                    }) + "\n"@) + trace_spec(self.trace@.map_values(|f: String| f@).take(i as int)),
            decreases self.trace@.len() - i,
        {
            r.append("  ");
            r.append(self.trace[i].as_str());
            r.append("\n");
            i = i + 1;
            proof {
                let frames = self.trace@.map_values(|f: String| f@);
                lemma_trace_spec_take(frames, i as int);
            }
        }
        proof {
            assert(self.trace@.map_values(|f: String| f@).take(self.trace@.len() as int)
                =~= self.trace@.map_values(|f: String| f@));
        }
        r
    }
}

/// Extending the rendered prefix of the call-stack by one line.
proof fn lemma_trace_spec_take(frames: Seq<Seq<char>>, i: int)
    requires
        0 < i <= frames.len(),
    ensures
        trace_spec(frames.take(i)) == trace_spec(frames.take(i - 1)) + trace_line_spec(frames[i - 1]),
    decreases i,
{
    if i == 1 {
        assert(frames.take(1).drop_first() =~= Seq::<Seq<char>>::empty());
        assert(frames.take(0) =~= Seq::<Seq<char>>::empty());
        assert(trace_spec(frames.take(1)) =~= trace_line_spec(frames[0]));
    } else {
        lemma_trace_spec_take(frames.drop_first(), i - 1);
        assert(frames.take(i).drop_first() =~= frames.drop_first().take(i - 1));
        assert(frames.take(i - 1).drop_first() =~= frames.drop_first().take(i - 2));
        assert(trace_spec(frames.take(i)) == trace_line_spec(frames[0]) + trace_spec(frames.drop_first().take(i - 1)));
        assert(trace_spec(frames.take(i - 1)) == trace_line_spec(frames[0]) + trace_spec(frames.drop_first().take(i - 2)));
        assert(trace_spec(frames.take(i)) =~= trace_spec(frames.take(i - 1)) + trace_line_spec(frames[i - 1]));
    }
}

/// The decimal digit `d` as a one-character string slice.
fn digit_str(d: u64) -> (s: &'static str)
    requires
        d < 10,
    ensures
        s@ == seq![digit_char(d as nat)],
{
    proof {
        reveal_strlit("0");
        reveal_strlit("1");
        reveal_strlit("2");
        reveal_strlit("3");
        reveal_strlit("4");
        reveal_strlit("5");
        reveal_strlit("6");
        reveal_strlit("7");
        reveal_strlit("8");
        reveal_strlit("9");
    }
    match d {
        0 => "0",
        1 => "1",
        2 => "2",
        3 => "3",
        4 => "4",
        5 => "5",
        6 => "6",
        7 => "7",
        8 => "8",
        _ => "9",
    }
}

/// The decimal rendering of a number.
pub fn render_u64(n: u64) -> (s: String)
    ensures
        s@ == decimal_spec(n as nat),
    decreases n,
{
    if n < 10 {
        String::from_str(digit_str(n))
    } else {
        let prefix = render_u64(n / 10);
        let s = prefix.concat(digit_str(n % 10));
        proof {
            assert(s@ =~= decimal_spec(n as nat));
        }
        s
    }
}

} // verus!
