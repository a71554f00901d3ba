//! Which part of the data set is read, and the names of the network's
//! input and output nodes for an image of the data set.
use vstd::prelude::*;
use vstd::string::StringExecFns;

verus! {

/// The part of the data set in use: training, validation or test images.
#[derive(Clone, Copy, PartialEq, Eq, Structural, Debug)]
pub enum DsMode {
    Train,
    Val,
    Test,
}

/// Side of an image, in pixels.
pub const IMAGE_SIDE: usize = 28;

/// Number of classes an image can belong to.
pub const CLASSES: usize = 10;

/// The character of the decimal digit `d`.
pub open spec fn digit(d: nat) -> char {
    (48 + d) as char
}

/// The decimal numeral of `n`, most significant digit first.
pub open spec fn decimal(n: nat) -> Seq<char>
    decreases n,
{
    if n < 10 {
        seq![digit(n)]
    } else {
        decimal(n / 10).push(digit(n % 10))
    }
}

/// The decimal numeral of `n`.
pub fn numeral(n: usize) -> (s: String)
    ensures
        s@ == decimal(n as nat),
    decreases n,
{
    let d: u8 = (n % 10) as u8;
    let c = (48u8 + d) as char;
    let mut s = if n < 10 {
        String::new()
    } else {
        numeral(n / 10)
    };
    s.push(c);
    s
}

/// `prefix` followed by the decimal numeral of `n`.
fn labelled(prefix: &str, n: usize) -> (s: String)
    ensures
        s@ == prefix@ + decimal(n as nat),
{
    let mut s = String::from_str(prefix);
    let digits = numeral(n);
    s.append(digits.as_str());
    s
}

/// The names of the input nodes, one per pixel (`in-0`, `in-1`, ...), and
/// of the output nodes, one per class (`out-0` to `out-9`).
pub fn describe() -> (names: (Vec<String>, Vec<String>))
    ensures
        names.0@.len() == IMAGE_SIDE * IMAGE_SIDE,
        forall|i: int| 0 <= i < names.0@.len() ==> #[trigger] names.0@[i]@ == "in-"@ + decimal(i as nat),
        names.1@.len() == CLASSES,
        forall|i: int| 0 <= i < names.1@.len() ==> #[trigger] names.1@[i]@ == "out-"@ + decimal(i as nat),
{
    let mut input: Vec<String> = Vec::new();
    let mut i: usize = 0;
    while i < IMAGE_SIDE * IMAGE_SIDE
        invariant
            i <= IMAGE_SIDE * IMAGE_SIDE,
            input@.len() == i,
            forall|k: int| 0 <= k < i ==> #[trigger] input@[k]@ == "in-"@ + decimal(k as nat),
        decreases IMAGE_SIDE * IMAGE_SIDE - i,
    {
        input.push(labelled("in-", i));
        i = i + 1;
    }
    let mut output: Vec<String> = Vec::new();
    let mut j: usize = 0;
    while j < CLASSES
        invariant
            j <= CLASSES,
            output@.len() == j,
            forall|k: int| 0 <= k < j ==> #[trigger] output@[k]@ == "out-"@ + decimal(k as nat),
        decreases CLASSES - j,
    {
        output.push(labelled("out-", j));
        j = j + 1;
    }
    (input, output)
}

} // verus!
