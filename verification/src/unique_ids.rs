//! The node of the unique-id problem: every request is answered with an id
//! that no other request gets, in this node or in another.

use vstd::prelude::*;
use vstd::string::StringExecFns;
use crate::body::{IdBody, IdBodyView};
use crate::ids::{MessageId, MessageIdCounter};
use crate::message::{Message, MessageView};

verus! {

/// The character of the decimal digit `d`.
pub open spec fn digit_char(d: nat) -> char {
    if d == 0 {
        '0'
    } else if d == 1 {
        '1'
    } else if d == 2 {
        '2'
    } else if d == 3 {
        '3'
    } else if d == 4 {
        '4'
    } else if d == 5 {
        '5'
    } else if d == 6 {
        '6'
    } else if d == 7 {
        '7'
    } else if d == 8 {
        '8'
    } else {
        '9'
    }
}

/// The decimal digits of `n`, most significant first, without leading zeros.
pub open spec fn decimal(n: nat) -> Seq<char>
    decreases n,
{
    if n < 10 {
        seq![digit_char(n)]
    } else {
        decimal(n / 10).push(digit_char(n % 10))
    }
}

/// The id that the node `node` generates for its request number `n`: the
/// node's id, a hyphen, and the number in decimal.
pub open spec fn generated_id(node: Seq<char>, n: nat) -> Seq<char> {
    node + seq!['-'] + decimal(n)
}

/// The decimal digit `d` as a string.
fn digit(d: usize) -> (s: &'static str)
    requires
        d < 10,
    ensures
        s@ == seq![digit_char(d as nat)],
{
    proof {
        reveal_strlit("0");
        reveal_strlit("1");
        reveal_strlit("2");
        reveal_strlit("3");
        reveal_strlit("4");
        reveal_strlit("5");
        reveal_strlit("6");
        reveal_strlit("7");
        reveal_strlit("8");
        reveal_strlit("9");
    }
    let s = if d == 0 {
        "0"
    } else if d == 1 {
        "1"
    } else if d == 2 {
        "2"
    } else if d == 3 {
        "3"
    } else if d == 4 {
        "4"
    } else if d == 5 {
        "5"
    } else if d == 6 {
        "6"
    } else if d == 7 {
        "7"
    } else if d == 8 {
        "8"
    } else {
        "9"
    };
    assert(s@ =~= seq![digit_char(d as nat)]);
    s
}

/// The number `n` in decimal.
pub fn to_decimal(n: usize) -> (digits: String)
    ensures
        digits@ == decimal(n as nat),
    decreases n,
{
    if n < 10 {
        String::from_str(digit(n))
    } else {
        let digits = to_decimal(n / 10).concat(digit(n % 10));
        assert(digits@ =~= decimal(n as nat));
        digits
    }
}

/// A node that generates unique ids.
#[derive(Debug)]
pub struct IdsNode {
    id: String,
    counter: MessageIdCounter,
}

/// The state of an [`IdsNode`] as a mathematical value.
pub struct IdsNodeView {
    /// The node's own id.
    pub id: Seq<char>,
    /// The number of ids generated so far.
    pub generated: nat,
}

impl View for IdsNode {
    type V = IdsNodeView;

    closed spec fn view(&self) -> IdsNodeView {
        IdsNodeView { id: self.id@, generated: self.counter@ }
    }
}

/// The response of the node `node` to `msg`, when `n` ids were generated
/// before: `None` for an envelope that is no request.
pub open spec fn generate_response(node: Seq<char>, msg: MessageView<IdBodyView>, n: nat) -> Option<
    MessageView<IdBodyView>,
> {
    match msg.body {
        IdBodyView::Generate => Some(
            MessageView {
                src: msg.dest,
                dest: msg.src,
                body: IdBodyView::GenerateOk { id: generated_id(node, n) },
            },
        ),
        IdBodyView::GenerateOk { .. } => None,
    }
}

impl IdsNode {
    /// The node `node_id`, which has generated nothing yet.
    pub fn init(node_id: String) -> (node: IdsNode)
        ensures
            node@ == (IdsNodeView { id: node_id@, generated: 0 }),
    {
        IdsNode { id: node_id, counter: MessageIdCounter::new() }
    }

    /// How many more ids the node can generate.
    pub fn remaining_ids(&self) -> (left: usize)
        ensures
            left == usize::MAX - self@.generated,
    {
        self.counter.remaining()
    }

    /// The number for the node's next id.
    pub fn next_id(&mut self) -> (id: MessageId)
        requires
            old(self)@.generated < usize::MAX,
        ensures
            id.0 == old(self)@.generated,
            final(self)@ == (IdsNodeView { generated: old(self)@.generated + 1, ..old(self)@ }),
    {
        self.counter.next_id()
    }

    /// Answers a request with a generated id: the node's own id, a hyphen,
    /// and the number of ids that the node generated before. A `GenerateOk`
    /// is ignored.
    pub fn handle_msg(&mut self, msg: Message<IdBody>) -> (response: Option<Message<IdBody>>)
        requires
            old(self)@.generated < usize::MAX,
        ensures
            response.deep_view() == generate_response(old(self)@.id, msg@, old(self)@.generated),
            final(self)@ == (IdsNodeView {
                generated: old(self)@.generated + (if msg.body is Generate {
                    1nat
                } else {
                    0nat
                }),
                ..old(self)@
            }),
    {
        let mut msg = msg;
        match &msg.body {
            IdBody::GenerateOk { .. } => None,
            IdBody::Generate => {
                let n = self.next_id().0;
                let id = self.id.clone().concat("-").concat(to_decimal(n).as_str());
                proof {
                    reveal_strlit("-");
                    assert(id@ =~= generated_id(self.id@, n as nat));
                }
                let response = IdBody::GenerateOk { id };
                msg.into_response(
                    |body: &mut IdBody|
                        ensures (*final(body) == response)
                        { *body = response; },
                );
                Some(msg)
            },
        }
    }
}

} // verus!
