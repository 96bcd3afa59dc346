//! The one-line description of a branch, for logs and debugging.

use vstd::prelude::*;
use vstd::string::StringExecFns;
use crate::node::branch::{BranchNode, Child};

verus! {

/// The lower-case hexadecimal digit of a nibble.
pub open spec fn hex_digit(nibble: u8) -> char {
    if nibble < 10 {
        (48 + nibble) as char
    } else {
        (87 + nibble) as char
    }
}

/// Two lower-case hexadecimal digits for each byte, high half first.
pub open spec fn hex_text(bytes: Seq<u8>) -> Seq<char> {
    Seq::new(
        2 * bytes.len(),
        |i: int|
            if i % 2 == 0 {
                hex_digit(bytes[i / 2] / 16)
            } else {
                hex_digit(bytes[i / 2] % 16)
            },
    )
}

/// One hexadecimal digit for each nibble.
pub open spec fn nibbles_text(nibbles: Seq<u8>) -> Seq<char> {
    Seq::new(nibbles.len(), |i: int| hex_digit(nibbles[i]))
}

/// The decimal digits of a number, without leading zeros.
pub open spec fn decimal_text(n: nat) -> Seq<char>
    decreases n,
{
    if n < 10 {
        seq![(48 + n) as char]
    } else {
        decimal_text(n / 10).push((48 + n % 10) as char)
    }
}

/// The description of the stored children among the first `n` slots.
pub open spec fn children_text(children: Seq<Option<Child>>, n: int) -> Seq<char>
    decreases n,
{
    if n <= 0 {
        Seq::empty()
    } else {
        children_text(children, n - 1) + (match children[n - 1] {
            Some(Child::AddressWithHash(address, hash)) => "(index: "@ + decimal_text(
                (n - 1) as nat,
            ) + "), address="@ + decimal_text(address@ as nat) + ", hash=\""@ + hex_text(hash@)
                + "\")"@,
            _ => Seq::empty(),
        })
    }
}

/// The description of a value: its bytes in hexadecimal, or `nil`.
pub open spec fn value_text(value: Option<Vec<u8>>) -> Seq<char> {
    match value {
        Some(v) => hex_text(v@),
        None => "nil"@,
    }
}

/// The description of a branch: its path, its stored children, its value.
pub open spec fn branch_text(b: BranchNode) -> Seq<char> {
    "[Branch"@ + " path=\""@ + nibbles_text(b.partial_path@) + "\""@ + children_text(
        b.children@,
        16,
    ) + " v="@ + value_text(b.value) + "]"@
}

/// `hex::encode`: two lower-case hexadecimal digits for each byte, high half first.
#[verifier::external_body]
pub(crate) fn hex_encode(data: &[u8]) -> (text: String)
    ensures
        text@ == hex_text(data@),
{
    hex::encode(data)
}

/// `u64::to_string`: the decimal digits, without leading zeros.
#[verifier::external_body]
pub(crate) fn decimal(n: u64) -> (text: String)
    ensures
        text@ == decimal_text(n as nat),
{
    n.to_string()
}

/// Formatting a nibble with `{:x}`: its one hexadecimal digit.
#[verifier::external_body]
pub(crate) fn nibble_digit(nibble: u8) -> (text: String)
    requires
        nibble < 16,
    ensures
        text@ == seq![hex_digit(nibble)],
{
    format!("{:x}", nibble)
}

impl BranchNode {
    /// Describes this branch in one line: `[Branch path="…"`, then
    /// `(index: i), address=a, hash="…")` for each stored child, then
    /// ` v=…]` with the value in hexadecimal or `nil`.
    pub fn debug_string(&self) -> (text: String)
        requires
            self.wf(),
        ensures
            text@ == branch_text(*self),
    {
        let mut out = String::from_str("[Branch");
        out.append(" path=\"");
        let ghost head = out@;
        let mut k: usize = 0;
        assert(out@ =~= head + nibbles_text(self.partial_path@).take(0));
        while k < self.partial_path.len()
            invariant
                k <= self.partial_path@.len(),
                self.partial_path.wf(),
                out@ == head + nibbles_text(self.partial_path@).take(k as int),
            decreases self.partial_path@.len() - k,
        {
            let digit = nibble_digit(self.partial_path.0[k]);
            out.append(digit.as_str());
            k += 1;
            assert(out@ =~= head + nibbles_text(self.partial_path@).take(k as int));
        }
        assert(nibbles_text(self.partial_path@).take(k as int) =~= nibbles_text(
            self.partial_path@,
        ));
        out.append("\"");
        let ghost head = out@;
        let mut i: usize = 0;
        assert(out@ =~= head + children_text(self.children@, 0));
        while i < 16
            invariant
                i <= 16,
                self.children@.len() == 16,
                out@ == head + children_text(self.children@, i as int),
            decreases 16 - i,
        {
            let ghost before = out@;
            match &self.children[i] {
                Some(Child::AddressWithHash(address, hash)) => {
                    out.append("(index: ");
                    let index = decimal(i as u64);
                    out.append(index.as_str());
                    out.append("), address=");
                    let offset = decimal(address.get());
                    out.append(offset.as_str());
                    out.append(", hash=\"");
                    let bytes = hash.to_vec();
                    let digits = hex_encode(bytes.as_slice());
                    out.append(digits.as_str());
                    out.append("\")");
                    assert(out@ =~= before + ("(index: "@ + decimal_text(i as nat)
                        + "), address="@ + decimal_text(address@ as nat) + ", hash=\""@
                        + hex_text(hash@) + "\")"@));
                },
                _ => {
                    assert(out@ =~= before + Seq::<char>::empty());
                },
            }
            i += 1;
            assert(out@ =~= head + children_text(self.children@, i as int));
        }
        out.append(" v=");
        match &self.value {
            Some(v) => {
                let digits = hex_encode(v.as_slice());
                out.append(digits.as_str());
            },
            None => {
                out.append("nil");
            },
        }
        out.append("]");
        assert(out@ =~= branch_text(*self));
        out
    }
}

} // verus!
