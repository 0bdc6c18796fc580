//! A point in time as a count of milliseconds since the epoch, with
//! template-driven `strftime`-style rendering.

use crate::gcalendar::{
    calendar_of, directive_ok, lemma_wf_directive_ok, matches_fmt, spec_get_date, wf, DateError,
    GCalendar,
};
use vstd::prelude::*;
use vstd::string::StrSliceExecFns;
use vstd::string::StringExecFns;

verus! {

/// What `strftime` renders for calendar value `c` and template `t`: each
/// `%` consumes the following character as a directive, any other
/// character is copied, and a trailing unescaped `%` is malformed.
pub open spec fn spec_strftime(c: GCalendar, t: Seq<char>) -> Result<Seq<char>, DateError>
    decreases t.len(),
{
    if t.len() == 0 {
        Ok(Seq::<char>::empty())
    } else if t[0] == '%' {
        if t.len() == 1 {
            Err(DateError::MalformedTemplate)
        } else {
            match spec_get_date(c, t[1]) {
                Err(e) => Err(e),
                Ok(s) => match spec_strftime(c, t.skip(2)) {
                    Err(e) => Err(e),
                    Ok(rest) => Ok(s + rest),
                },
            }
        }
    } else {
        match spec_strftime(c, t.skip(1)) {
            Err(e) => Err(e),
            Ok(rest) => Ok(seq![t[0]] + rest),
        }
    }
}

/// Whether every directive that template `t` applies to calendar value `c`
/// computes within machine bounds. Holds for every template when `c` is
/// well-formed.
pub open spec fn template_ok(c: GCalendar, t: Seq<char>) -> bool
    decreases t.len(),
{
    if t.len() == 0 {
        true
    } else if t[0] == '%' {
        t.len() == 1 || (directive_ok(c, t[1]) && template_ok(c, t.skip(2)))
    } else {
        template_ok(c, t.skip(1))
    }
}

/// Every template is admissible for a well-formed calendar value.
pub proof fn lemma_wf_template_ok(c: GCalendar, t: Seq<char>)
    requires
        wf(c),
    ensures
        template_ok(c, t),
    decreases t.len(),
{
    if t.len() > 0 {
        if t[0] == '%' {
            if t.len() > 1 {
                lemma_wf_directive_ok(c, t[1]);
                lemma_wf_template_ok(c, t.skip(2));
            }
        } else {
            lemma_wf_template_ok(c, t.skip(1));
        }
    }
}

/// Law: a template that contains no `%` renders to itself, for every
/// calendar value; in particular the empty template renders to the empty
/// string.
pub proof fn lemma_literal_template(c: GCalendar, t: Seq<char>)
    requires
        forall|i: int| 0 <= i < t.len() ==> t[i] != '%',
    ensures
        template_ok(c, t),
        spec_strftime(c, t) == Ok::<Seq<char>, DateError>(t),
    decreases t.len(),
{
    if t.len() == 0 {
        assert(t =~= Seq::<char>::empty());
    } else {
        assert(forall|i: int| 0 <= i < t.skip(1).len() ==> t.skip(1)[i] != '%');
        lemma_literal_template(c, t.skip(1));
        assert(seq![t[0]] + t.skip(1) =~= t);
    }
}

/// A point in time: an epoch-millisecond count together with its
/// broken-down calendar form.
pub struct Date {
    /// The broken-down Gregorian calendar form of the instant.
    gcal: GCalendar,
    /// Milliseconds since 1970-01-01T00:00:00Z.
    since_epoch: u64,
}

impl Date {
    /// The calendar component, for specification.
    pub closed spec fn cal(&self) -> GCalendar {
        self.gcal
    }

    /// The stored epoch-millisecond count, for specification.
    pub closed spec fn epoch(&self) -> u64 {
        self.since_epoch
    }

    /// The instant `epoch_date` milliseconds after 1970-01-01T00:00:00Z.
    pub fn from_epoch(epoch_date: u64) -> (r: Date)
        ensures
            r.epoch() == epoch_date,
            r.cal() == calendar_of(epoch_date as int),
            wf(r.cal()),
    {
        let cal: GCalendar = GCalendar::new_from_epoch(epoch_date);
        Date { gcal: cal, since_epoch: epoch_date }
    }

    /// The number of milliseconds since 1970-01-01T00:00:00Z that this
    /// instant represents.
    pub fn get_time(&self) -> (r: u64)
        ensures
            r == self.epoch(),
    {
        self.since_epoch
    }

    /// The broken-down calendar form of this instant.
    pub fn get_cal(&self) -> (r: GCalendar)
        ensures
            r == self.cal(),
    {
        self.gcal
    }

    /// Renders this instant according to the template: literal characters
    /// are copied, and each `%` applies the following character as a
    /// format directive.
    pub fn strftime(&self, format: &str) -> (r: Result<String, DateError>)
        requires
            template_ok(self.cal(), format@),
        ensures
            matches_fmt(r, spec_strftime(self.cal(), format@)),
    {
        let ghost t: Seq<char> = format@;
        let n: usize = format.unicode_len();
        let mut out = String::new();
        let mut i: usize = 0;
        proof {
            assert(t.skip(0) =~= t);
            match spec_strftime(self.cal(), t) {
                Ok(rest) => {
                    assert(Seq::<char>::empty() + rest =~= rest);
                },
                Err(e) => {},
            }
        }
        while i < n
            invariant
                i <= n,
                n == t.len(),
                t == format@,
                template_ok(self.cal(), t.skip(i as int)),
                (match spec_strftime(self.cal(), t.skip(i as int)) {
                    Ok(rest) => spec_strftime(self.cal(), t) == Ok::<Seq<char>, DateError>(
                        out@ + rest,
                    ),
                    Err(e) => spec_strftime(self.cal(), t) == Err::<Seq<char>, DateError>(e),
                }),
            decreases n - i,
        {
            let ghost i0: int = i as int;
            let ch = format.get_char(i);
            if ch == '%' {
                if i + 1 >= n {
                    proof {
                        assert(t.skip(i0).len() == 1);
                        assert(t.skip(i0)[0] == '%');
                    }
                    return Err(DateError::MalformedTemplate);
                }
                let code = format.get_char(i + 1);
                proof {
                    assert(t.skip(i0)[0] == '%');
                    assert(t.skip(i0)[1] == code);
                }
                match self.gcal.get_date(code) {
                    Err(e) => {
                        return Err(e);
                    },
                    Ok(s) => {
                        let ghost out0: Seq<char> = out@;
                        out.append(s.as_str());
                        i = i + 2;
                        proof {
                            assert(t.skip(i0).skip(2) =~= t.skip(i as int));
                            match spec_strftime(self.cal(), t.skip(i as int)) {
                                Ok(rest) => {
                                    assert(out0 + (s@ + rest) =~= out@ + rest);
                                },
                                Err(e) => {},
                            }
                        }
                    },
                }
            } else {
                let piece = format.substring_char(i, i + 1);
                proof {
                    assert(piece@ =~= seq![t[i0]]);
                }
                let ghost out0: Seq<char> = out@;
                out.append(piece);
                i = i + 1;
                proof {
                    assert(t.skip(i0).skip(1) =~= t.skip(i as int));
                    match spec_strftime(self.cal(), t.skip(i as int)) {
                        Ok(rest) => {
                            assert(out0 + (seq![t[i0]] + rest) =~= out@ + rest);
                        },
                        Err(e) => {},
                    }
                }
            }
        }
        proof {
            assert(t.skip(n as int) =~= Seq::<char>::empty());
            assert(out@ + Seq::<char>::empty() =~= out@);
        }
        Ok(out)
    }

    /// Renders this instant in ISO-8601 style, `YYYY-mm-dd HH:MM:SS`.
    pub fn iso_format(&self) -> (r: Result<String, DateError>)
        requires
            wf(self.cal()),
        ensures
            matches_fmt(r, spec_strftime(self.cal(), "%Y-%m-%d %H:%M:%S"@)),
            r is Ok,
    {
        proof {
            lemma_wf_template_ok(self.cal(), "%Y-%m-%d %H:%M:%S"@);
            reveal_strlit("%Y-%m-%d %H:%M:%S");
            reveal_with_fuel(spec_strftime, 20);
            assert(spec_strftime(self.cal(), "%Y-%m-%d %H:%M:%S"@) is Ok);
        }
        self.strftime("%Y-%m-%d %H:%M:%S")
    }

    /// Renders this instant in the style of C's `ctime`, such as
    /// `Thu Jan  1 00:00:00 1970`.
    pub fn ctime(&self) -> (r: Result<String, DateError>)
        requires
            wf(self.cal()),
        ensures
            matches_fmt(r, spec_strftime(self.cal(), "%c"@)),
            r is Ok,
    {
        proof {
            lemma_wf_template_ok(self.cal(), "%c"@);
            reveal_strlit("%c");
            reveal_with_fuel(spec_strftime, 4);
            assert(spec_strftime(self.cal(), "%c"@) is Ok);
        }
        self.strftime("%c")
    }

    /// Renders this instant according to RFC 822, such as
    /// `Thu, 22 Mar 2012 14:53:18 UTC`.
    pub fn rfc822(&self) -> (r: Result<String, DateError>)
        requires
            wf(self.cal()),
        ensures
            matches_fmt(r, spec_strftime(self.cal(), "%a, %d %b %Y %T UTC"@)),
            r is Ok,
    {
        proof {
            lemma_wf_template_ok(self.cal(), "%a, %d %b %Y %T UTC"@);
            reveal_strlit("%a, %d %b %Y %T UTC");
            reveal_with_fuel(spec_strftime, 22);
            assert(spec_strftime(self.cal(), "%a, %d %b %Y %T UTC"@) is Ok);
        }
        self.strftime("%a, %d %b %Y %T UTC")
    }

    /// Renders this instant according to RFC 822 with a zero zone offset,
    /// such as `Thu, 22 Mar 2012 14:53:18 -0000`.
    pub fn rfc822z(&self) -> (r: Result<String, DateError>)
        requires
            wf(self.cal()),
        ensures
            matches_fmt(r, spec_strftime(self.cal(), "%a, %d %b %Y %T %z"@)),
            r is Ok,
    {
        proof {
            lemma_wf_template_ok(self.cal(), "%a, %d %b %Y %T %z"@);
            reveal_strlit("%a, %d %b %Y %T %z");
            reveal_with_fuel(spec_strftime, 22);
            assert(spec_strftime(self.cal(), "%a, %d %b %Y %T %z"@) is Ok);
        }
        self.strftime("%a, %d %b %Y %T %z")
    }
}

} // verus!
