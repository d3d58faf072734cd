use vstd::prelude::*;
use vstd::string::StringExecFns;

verus! {

/// An indentation depth, printed as that many tab characters.
#[derive(Clone, Copy, Debug)]
pub struct Tab {
    len: usize,
}

/// `n` tab characters.
pub open spec fn tabs(n: nat) -> Seq<char>
    decreases n,
{
    if n == 0 {
        Seq::empty()
    } else {
        tabs((n - 1) as nat) + "\t"@
    }
}

/// The decimal digit `d`.
pub open spec fn digit(d: nat) -> Seq<char> {
    if d == 0 {
        "0"@
    } else if d == 1 {
        "1"@
    } else if d == 2 {
        "2"@
    } else if d == 3 {
        "3"@
    } else if d == 4 {
        "4"@
    } else if d == 5 {
        "5"@
    } else if d == 6 {
        "6"@
    } else if d == 7 {
        "7"@
    } else if d == 8 {
        "8"@
    } else {
        "9"@
    }
}

/// `n` in decimal, without leading zeros.
pub open spec fn decimal(n: nat) -> Seq<char>
    decreases n,
{
    if n < 10 {
        digit(n)
    } else {
        decimal(n / 10) + digit(n % 10)
    }
}

/// The name of register `r` in the printed program.
pub open spec fn local(r: nat) -> Seq<char> {
    "loc_"@ + decimal(r)
}

impl Tab {
    pub fn new(len: usize) -> (r: Tab)
        ensures
            r.depth() == len,
    {
        Tab { len }
    }

    /// One level deeper.
    pub fn add(self) -> (r: Tab)
        requires
            self.depth() < usize::MAX,
        ensures
            r.depth() == self.depth() + 1,
    {
        Tab::new(self.len + 1)
    }

    pub closed spec fn depth(&self) -> nat {
        self.len as nat
    }

    /// Appends the indentation to `out`.
    pub fn write_to(&self, out: &mut String)
        ensures
            final(out)@ == old(out)@ + tabs(self.depth()),
    {
        let mut k: usize = 0;
        while k < self.len
            invariant
                k <= self.len,
                out@ == old(out)@ + tabs(k as nat),
            decreases self.len - k,
        {
            out.append("\t");
            proof {
                assert(old(out)@ + tabs(k as nat) + "\t"@ =~= old(out)@ + tabs((k + 1) as nat));
            }
            k = k + 1;
        }
    }
}

/// Appends `n` in decimal to `out`.
pub fn write_decimal(out: &mut String, n: u64)
    ensures
        final(out)@ == old(out)@ + decimal(n as nat),
    decreases n,
{
    if n >= 10 {
        write_decimal(out, n / 10);
    }
    let d = n % 10;
    let text = if d == 0 {
        "0"
    } else if d == 1 {
        "1"
    } else if d == 2 {
        "2"
    } else if d == 3 {
        "3"
    } else if d == 4 {
        "4"
    } else if d == 5 {
        "5"
    } else if d == 6 {
        "6"
    } else if d == 7 {
        "7"
    } else if d == 8 {
        "8"
    } else {
        "9"
    };
    out.append(text);
    proof {
        if n >= 10 {
            assert(old(out)@ + decimal((n / 10) as nat) + digit((n % 10) as nat) =~= old(out)@ + decimal(n as nat));
        }
    }
}

/// Appends the name of register `r` to `out`.
pub fn write_local(out: &mut String, r: u64)
    ensures
        final(out)@ == old(out)@ + local(r as nat),
{
    out.append("loc_");
    write_decimal(out, r);
    assert(old(out)@ + "loc_"@ + decimal(r as nat) =~= old(out)@ + local(r as nat));
}

} // verus!
