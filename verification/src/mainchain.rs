//! What the sidechain reads and writes of its mainchain: addresses,
//! transaction outputs and the events that a mainchain block carries.
use std::str::FromStr;
use vstd::prelude::*;

use crate::ids::{M6id, MainBlockHash, MainTxid};
use crate::types::{Output, OutputView};
use crate::withdrawal::WithdrawalBundleStatus;

verus! {

/// The text that `bitcoin::Address` prints for an address, given any text of
/// it; `None` where the given text is no address.
pub uninterp spec fn address_text(text: Seq<u8>) -> Option<Seq<u8>>;

/// The script that an output to the address of this text carries; `None` where
/// the text is no address.
pub uninterp spec fn address_script(text: Seq<u8>) -> Option<Seq<u8>>;

/// Calls `bitcoin::Address::from_str` and prints the address, without asking
/// for a network, through its `Display`. The contract says that the result
/// depends on the given text alone, and names it.
#[verifier::external_body]
fn print_address(text: &Vec<u8>) -> (r: Option<Vec<u8>>)
    ensures
        r is Some <==> address_text(text@) is Some,
        r is Some ==> r->0@ == address_text(text@)->0,
{
    let text = std::str::from_utf8(text).ok()?;
    let address = bitcoin::Address::from_str(text).ok()?;
    Some(address.assume_checked().to_string().into_bytes())
}

/// Calls `bitcoin::Address::from_str`, then `assume_checked_ref` and
/// `script_pubkey`. The contract says that the script depends on the text
/// alone, and names it.
#[verifier::external_body]
fn parse_script(text: &Vec<u8>) -> (r: Option<Vec<u8>>)
    ensures
        r is Some <==> address_script(text@) is Some,
        r is Some ==> r->0@ == address_script(text@)->0,
{
    let text = std::str::from_utf8(text).ok()?;
    let address = bitcoin::Address::from_str(text).ok()?;
    Some(address.assume_checked_ref().script_pubkey().into_bytes())
}

/// A mainchain address: its printed text, and the script that an output to it
/// carries.
pub struct MainAddress {
    text: Vec<u8>,
    script_pubkey: Vec<u8>,
}

#[verifier::ext_equal]
pub struct MainAddressView {
    pub text: Seq<u8>,
    pub script_pubkey: Seq<u8>,
}

impl DeepView for MainAddress {
    type V = MainAddressView;

    closed spec fn deep_view(&self) -> MainAddressView {
        MainAddressView { text: self.text@, script_pubkey: self.script_pubkey@ }
    }
}

/// The text and the script are those of one address.
pub open spec fn is_address(address: MainAddressView) -> bool {
    exists|text: Seq<u8>|
        #![trigger address_text(text)]
        #![trigger address_script(text)]
        address_text(text) == Some(address.text) && address_script(text) == Some(
            address.script_pubkey,
        )
}

/// The script is that which outputs to some address carry.
pub open spec fn is_address_script(script: Seq<u8>) -> bool {
    exists|text: Seq<u8>| #[trigger] address_script(text) == Some(script)
}

/// The order of addresses: that of their texts, then that of their scripts.
pub open spec fn address_before(a: MainAddressView, b: MainAddressView) -> bool {
    bytes_before(a.text, b.text) || (a.text == b.text && bytes_before(
        a.script_pubkey,
        b.script_pubkey,
    ))
}

impl MainAddress {
    #[verifier::type_invariant]
    spec fn is_one_address(&self) -> bool {
        is_address(MainAddressView { text: self.text@, script_pubkey: self.script_pubkey@ })
    }

    /// Reads an address. There is one exactly if the text is that of an address.
    pub fn new(text: &Vec<u8>) -> (r: Option<MainAddress>)
        ensures
            match r {
                Some(address) => address_text(text@) == Some(address.deep_view().text)
                    && address_script(text@) == Some(address.deep_view().script_pubkey),
                None => address_text(text@) is None || address_script(text@) is None,
            },
    {
        match (print_address(text), parse_script(text)) {
            (Some(printed), Some(script_pubkey)) => {
                assert(address_text(text@) == Some(printed@));
                Some(MainAddress { text: printed, script_pubkey })
            },
            _ => None,
        }
    }

    /// The printed text.
    pub fn text(&self) -> (r: &Vec<u8>)
        ensures
            r@ == self.deep_view().text,
            is_address(self.deep_view()),
    {
        proof {
            use_type_invariant(self);
        }
        &self.text
    }

    /// The script that an output to the address carries.
    pub fn script_pubkey(&self) -> (r: &Vec<u8>)
        ensures
            r@ == self.deep_view().script_pubkey,
            is_address(self.deep_view()),
    {
        proof {
            use_type_invariant(self);
        }
        &self.script_pubkey
    }

    /// Tells whether two addresses are the same.
    pub fn same(&self, other: &MainAddress) -> (r: bool)
        ensures
            r == (self.deep_view() == other.deep_view()),
    {
        same_bytes(&self.text, &other.text) && same_bytes(
            &self.script_pubkey,
            &other.script_pubkey,
        )
    }

    /// Tells whether `self` comes before `other`.
    pub fn precedes(&self, other: &MainAddress) -> (r: bool)
        ensures
            r == address_before(self.deep_view(), other.deep_view()),
    {
        bytes_precede(&self.text, &other.text) || (same_bytes(&self.text, &other.text)
            && bytes_precede(&self.script_pubkey, &other.script_pubkey))
    }
}

impl Clone for MainAddress {
    fn clone(&self) -> (r: MainAddress)
        ensures
            r.deep_view() == self.deep_view(),
    {
        proof {
            use_type_invariant(self);
        }
        let text = self.text.clone();
        assert(text@ =~= self.text@);
        let script_pubkey = self.script_pubkey.clone();
        assert(script_pubkey@ =~= self.script_pubkey@);
        MainAddress { text, script_pubkey }
    }
}

/// Tells whether two byte strings are the same.
pub fn same_bytes(a: &Vec<u8>, b: &Vec<u8>) -> (r: bool)
    ensures
        r == (a@ == b@),
{
    if a.len() != b.len() {
        return false;
    }
    let n: usize = a.len();
    for i in 0..n
        invariant
            n == a@.len(),
            n == b@.len(),
            forall|j: int| 0 <= j < i ==> a@[j] == b@[j],
    {
        if a[i] != b[i] {
            return false;
        }
    }
    assert(a@ =~= b@);
    true
}

/// The order of byte strings: the first difference decides, and a string comes
/// before those that it begins.
pub open spec fn bytes_before(a: Seq<u8>, b: Seq<u8>) -> bool
    decreases a.len(),
{
    if b.len() == 0 {
        false
    } else if a.len() == 0 {
        true
    } else if a[0] != b[0] {
        a[0] < b[0]
    } else {
        bytes_before(a.drop_first(), b.drop_first())
    }
}

/// Tells whether one byte string comes before another.
pub fn bytes_precede(a: &Vec<u8>, b: &Vec<u8>) -> (r: bool)
    ensures
        r == bytes_before(a@, b@),
{
    let mut i: usize = 0;
    assert(a@.skip(0) =~= a@);
    assert(b@.skip(0) =~= b@);
    while i < a.len() && i < b.len() && a[i] == b[i]
        invariant
            i <= a@.len(),
            i <= b@.len(),
            bytes_before(a@, b@) == bytes_before(a@.skip(i as int), b@.skip(i as int)),
        decreases a@.len() - i,
    {
        assert(a@.skip(i as int).drop_first() =~= a@.skip(i + 1));
        assert(b@.skip(i as int).drop_first() =~= b@.skip(i + 1));
        i = i + 1;
    }
    if i == b.len() {
        false
    } else if i == a.len() {
        true
    } else {
        a[i] < b[i]
    }
}

/// Byte strings are in a strict total order.
proof fn bytes_ordered(a: Seq<u8>, b: Seq<u8>, c: Seq<u8>)
    ensures
        !bytes_before(a, a),
        bytes_before(a, b) && bytes_before(b, c) ==> bytes_before(a, c),
        bytes_before(a, b) || a == b || bytes_before(b, a),
    decreases a.len() + b.len() + c.len(),
{
    if a.len() > 0 && b.len() > 0 && c.len() > 0 {
        bytes_ordered(a.drop_first(), b.drop_first(), c.drop_first());
        assert(a[0] == b[0] && a.drop_first() == b.drop_first() ==> a =~= b) by {
            assert(a =~= seq![a[0]] + a.drop_first());
            assert(b =~= seq![b[0]] + b.drop_first());
        }
    } else if a.len() > 0 && b.len() > 0 {
        bytes_ordered(a.drop_first(), b.drop_first(), c);
        assert(a[0] == b[0] && a.drop_first() == b.drop_first() ==> a =~= b) by {
            assert(a =~= seq![a[0]] + a.drop_first());
            assert(b =~= seq![b[0]] + b.drop_first());
        }
    } else if a.len() > 0 {
        bytes_ordered(a.drop_first(), b, c);
    } else if b.len() == 0 {
        assert(a =~= b);
    }
}

/// Addresses are in a strict total order.
pub proof fn addresses_ordered(a: MainAddressView, b: MainAddressView, c: MainAddressView)
    ensures
        !address_before(a, a),
        address_before(a, b) && address_before(b, c) ==> address_before(a, c),
        address_before(a, b) || a == b || address_before(b, a),
{
    bytes_ordered(a.text, b.text, c.text);
    bytes_ordered(a.script_pubkey, b.script_pubkey, c.script_pubkey);
}

/// An output of a mainchain transaction.
pub struct TxOut {
    pub value: u64,
    pub script_pubkey: Vec<u8>,
}

#[verifier::ext_equal]
pub struct TxOutView {
    pub value: u64,
    pub script_pubkey: Seq<u8>,
}

impl DeepView for TxOut {
    type V = TxOutView;

    open spec fn deep_view(&self) -> TxOutView {
        TxOutView { value: self.value, script_pubkey: self.script_pubkey@ }
    }
}

impl Clone for TxOut {
    fn clone(&self) -> (r: TxOut)
        ensures
            r.deep_view() == self.deep_view(),
    {
        let script_pubkey = self.script_pubkey.clone();
        assert(script_pubkey@ =~= self.script_pubkey@);
        TxOut { value: self.value, script_pubkey }
    }
}

/// A deposit: mainchain coins that become the sidechain output `output`.
pub struct Deposit {
    pub txid: MainTxid,
    pub vout: u32,
    pub output: Output,
}

/// Something that happened to a withdrawal bundle on the mainchain.
#[derive(Clone, Copy, PartialEq, Eq, Structural, Debug)]
pub struct WithdrawalBundleEvent {
    pub m6id: M6id,
    pub status: WithdrawalBundleStatus,
}

/// An event of a mainchain block.
pub enum BlockEvent {
    Deposit(Deposit),
    WithdrawalBundle(WithdrawalBundleEvent),
}

#[verifier::ext_equal]
pub struct DepositView {
    pub txid: MainTxid,
    pub vout: u32,
    pub output: OutputView,
}

#[verifier::ext_equal]
pub enum BlockEventView {
    Deposit(DepositView),
    WithdrawalBundle(WithdrawalBundleEvent),
}

impl DeepView for BlockEvent {
    type V = BlockEventView;

    open spec fn deep_view(&self) -> BlockEventView {
        match self {
            BlockEvent::Deposit(d) => BlockEventView::Deposit(
                DepositView { txid: d.txid, vout: d.vout, output: d.output.deep_view() },
            ),
            BlockEvent::WithdrawalBundle(e) => BlockEventView::WithdrawalBundle(*e),
        }
    }
}

/// The mainchain blocks that a sidechain block covers, in order, each with its
/// events in order.
pub struct TwoWayPegData {
    pub block_info: Vec<(MainBlockHash, Vec<BlockEvent>)>,
}

impl DeepView for TwoWayPegData {
    type V = Seq<(MainBlockHash, Seq<BlockEventView>)>;

    open spec fn deep_view(&self) -> Seq<(MainBlockHash, Seq<BlockEventView>)> {
        self.block_info.deep_view()
    }
}

} // verus!
