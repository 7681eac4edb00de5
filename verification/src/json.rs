use vstd::prelude::*;

verus! {

/// A node of a parsed document as the contracts see it: its name, its text value, the
/// text of its number (`None` while no number was given), its text list, the texts of its
/// number list, and the positions of its children in the document's node list.
pub struct JEntry {
    pub name: Seq<u8>,
    pub strval: Seq<u8>,
    pub numeral: Option<Seq<u8>>,
    pub strvalar: Seq<Seq<u8>>,
    pub numeral_valar: Seq<Seq<u8>>,
    pub other_param: Seq<usize>,
}

/// A fresh node with the given name and nothing else.
pub open spec fn blank_entry(name: Seq<u8>) -> JEntry {
    JEntry {
        name: name,
        strval: seq![],
        numeral: None,
        strvalar: seq![],
        numeral_valar: seq![],
        other_param: seq![],
    }
}

/// The byte strings held in a list of byte vectors.
pub open spec fn texts(v: Seq<Vec<u8>>) -> Seq<Seq<u8>> {
    Seq::new(v.len(), |i: int| v[i]@)
}

/// A node of a parsed document. Numbers are kept as the text they were written with; the
/// children are positions in the document's node list.
pub struct JsonNode {
    pub name: Vec<u8>,
    pub strval: Vec<u8>,
    pub numeral: Option<Vec<u8>>,
    pub strvalar: Vec<Vec<u8>>,
    pub numeral_valar: Vec<Vec<u8>>,
    pub other_param: Vec<usize>,
}

impl View for JsonNode {
    type V = JEntry;

    open spec fn view(&self) -> JEntry {
        JEntry {
            name: self.name@,
            strval: self.strval@,
            numeral: match self.numeral {
                Some(t) => Some(t@),
                None => None,
            },
            strvalar: texts(self.strvalar@),
            numeral_valar: texts(self.numeral_valar@),
            other_param: self.other_param@,
        }
    }
}

/// The views of a list of nodes.
pub open spec fn entries(v: Seq<JsonNode>) -> Seq<JEntry> {
    Seq::new(v.len(), |i: int| v[i]@)
}

/// A parsed document: its nodes, the first of which is the root, and the text of every
/// number the parser read, in the order it read them.
pub struct JsonF {
    pub nodes: Vec<JsonNode>,
    pub numerals: Vec<Vec<u8>>,
}

/// The node that `path` leads to from node `cur`, each step choosing a child by its
/// position; `None` where a step names no child.
pub open spec fn node_from(nodes: Seq<JEntry>, cur: int, path: Seq<usize>) -> Option<int>
    decreases path.len(),
{
    if path.len() == 0 {
        Some(cur)
    } else if 0 <= cur < nodes.len() && path[0] < nodes[cur].other_param.len() {
        node_from(nodes, nodes[cur].other_param[path[0] as int] as int, path.drop_first())
    } else {
        None
    }
}

/// The node that `path` leads to from the root.
pub open spec fn node_at(nodes: Seq<JEntry>, path: Seq<usize>) -> Option<int> {
    node_from(nodes, 0, path)
}

/// Whether there is a root and every child position names a node.
pub open spec fn links_ok(nodes: Seq<JEntry>) -> bool {
    &&& nodes.len() >= 1
    &&& forall|n: int, k: int|
        0 <= n < nodes.len() && 0 <= k < nodes[n].other_param.len()
            ==> #[trigger] nodes[n].other_param[k] < nodes.len()
}

/// The state of the parser between two bytes.
pub struct JState {
    pub nodes: Seq<JEntry>,
    pub numerals: Seq<Seq<u8>>,
    pub stringvl: Seq<u8>,
    pub stringvlar: Seq<Seq<u8>>,
    pub numvlar: Seq<Seq<u8>>,
    pub entrar: Seq<usize>,
    pub brakeop: bool,
    pub valgiv: bool,
    pub txtarg: bool,
    pub numarg: bool,
    pub arrwr: bool,
    pub backstep: bool,
    pub strrdst: bool,
    pub failed: bool,
}

/// The parser before the first byte: a root node without a name, and nothing read.
pub open spec fn initial_state() -> JState {
    JState {
        nodes: seq![blank_entry(seq![])],
        numerals: seq![],
        stringvl: seq![],
        stringvlar: seq![],
        numvlar: seq![],
        entrar: seq![],
        brakeop: false,
        valgiv: false,
        txtarg: false,
        numarg: false,
        arrwr: false,
        backstep: false,
        strrdst: false,
        failed: false,
    }
}

/// Whether a byte can be part of a number: a decimal digit or a dot.
pub open spec fn is_numeral_byte(c: u8) -> bool {
    (48 <= c && c <= 57) || c == 46
}

/// The path with its last step advanced to the next sibling.
pub open spec fn bump_last(e: Seq<usize>) -> Seq<usize> {
    e.update(e.len() - 1, (e[e.len() - 1] + 1) as usize)
}

/// `{` after a name ends the wait for its value: the node gets children instead.
pub open spec fn on_open_brace(s: JState, c: u8) -> JState {
    if c == 123 && s.valgiv {
        JState { valgiv: false, ..s }
    } else {
        s
    }
}

/// `}` closes the current object: the path goes back up one level and on to the next
/// sibling.
pub open spec fn on_close_brace(s: JState, c: u8) -> JState {
    if c == 125 && s.entrar.len() > 1 {
        JState { entrar: bump_last(s.entrar.drop_last()), valgiv: false, ..s }
    } else {
        s
    }
}

/// `[` after a name starts a list value.
pub open spec fn on_open_bracket(s: JState, c: u8) -> JState {
    if c == 91 && s.valgiv {
        JState { arrwr: true, txtarg: false, numarg: false, ..s }
    } else {
        s
    }
}

/// `]` ends a list value: the texts read go to the current node's text list, the numbers
/// to its number list, as far as the list held them.
pub open spec fn on_close_bracket(s: JState, c: u8) -> JState {
    if c == 93 && s.valgiv {
        let reset = JState {
            stringvlar: seq![],
            numvlar: seq![],
            valgiv: false,
            txtarg: false,
            numarg: false,
            arrwr: false,
            backstep: true,
            ..s
        };
        if !s.txtarg && !s.numarg {
            reset
        } else {
            match node_at(s.nodes, s.entrar) {
                None => JState { failed: true, ..s },
                Some(k) => {
                    let n1 = if s.txtarg {
                        s.nodes.update(k, JEntry { strvalar: s.stringvlar, ..s.nodes[k] })
                    } else {
                        s.nodes
                    };
                    let n2 = if s.numarg {
                        n1.update(k, JEntry { numeral_valar: s.numvlar, ..n1[k] })
                    } else {
                        n1
                    };
                    JState { nodes: n2, ..reset }
                },
            }
        }
    } else {
        s
    }
}

/// `"` opens or closes a string.
pub open spec fn on_quote(s: JState, c: u8) -> JState {
    if c == 34 {
        JState { brakeop: !s.brakeop, txtarg: true, strrdst: true, ..s }
    } else {
        s
    }
}

/// A digit or a dot outside text is collected as part of a number.
pub open spec fn on_numeral(s: JState, c: u8) -> JState {
    if is_numeral_byte(c) && !s.txtarg {
        JState { stringvl: s.stringvl.push(c), numarg: true, strrdst: true, ..s }
    } else {
        s
    }
}

/// Inside a string every byte but the quote is collected.
pub open spec fn on_in_string(s: JState, c: u8) -> JState {
    if s.brakeop && c != 34 {
        JState { stringvl: s.stringvl.push(c), ..s }
    } else {
        s
    }
}

/// At the end of a value outside a list, the collected text becomes the current node's
/// text value.
pub open spec fn sep_text(s: JState) -> JState {
    if s.txtarg && !s.arrwr {
        match node_at(s.nodes, s.entrar) {
            None => JState { failed: true, ..s },
            Some(k) => JState {
                nodes: s.nodes.update(k, JEntry { strval: s.stringvl, ..s.nodes[k] }),
                stringvl: seq![],
                backstep: true,
                valgiv: false,
                txtarg: false,
                ..s
            },
        }
    } else {
        s
    }
}

/// At the end of a value outside a list, the collected number becomes the current node's
/// number.
pub open spec fn sep_number(s: JState) -> JState {
    if s.numarg && !s.arrwr {
        match node_at(s.nodes, s.entrar) {
            None => JState { failed: true, ..s },
            Some(k) => JState {
                nodes: s.nodes.update(k, JEntry { numeral: Some(s.stringvl), ..s.nodes[k] }),
                numerals: s.numerals.push(s.stringvl),
                stringvl: seq![],
                backstep: true,
                valgiv: false,
                numarg: false,
                ..s
            },
        }
    } else {
        s
    }
}

/// At the end of a list item, the collected text joins the list's texts.
pub open spec fn sep_text_item(s: JState) -> JState {
    if s.txtarg && s.arrwr && s.strrdst {
        JState {
            stringvlar: s.stringvlar.push(s.stringvl),
            stringvl: seq![],
            backstep: true,
            strrdst: false,
            ..s
        }
    } else {
        s
    }
}

/// At the end of a list item, the collected number joins the list's numbers.
pub open spec fn sep_number_item(s: JState) -> JState {
    if s.numarg && s.arrwr && s.strrdst {
        JState {
            numvlar: s.numvlar.push(s.stringvl),
            numerals: s.numerals.push(s.stringvl),
            stringvl: seq![],
            backstep: true,
            strrdst: false,
            ..s
        }
    } else {
        s
    }
}

/// `,` or a line break while a value is awaited ends that value or list item.
pub open spec fn on_separator(s: JState, c: u8) -> JState {
    if s.valgiv && (c == 44 || c == 10) {
        sep_number_item(sep_text_item(sep_number(sep_text(s))))
    } else {
        s
    }
}

/// The path of the node that a name read now belongs to: the parent of the current node
/// once a value was completed, else the current node.
pub open spec fn colon_parent(s: JState) -> Seq<usize> {
    if s.backstep && s.entrar.len() > 0 {
        s.entrar.drop_last()
    } else {
        s.entrar
    }
}

/// `:` outside a list ends a name: a new node with that name is added as the last child of
/// the node the path leads to, and the path moves to it.
pub open spec fn on_colon(s: JState, c: u8) -> JState {
    if c == 58 && !s.arrwr && !s.valgiv {
        match node_at(s.nodes, colon_parent(s)) {
            None => JState { failed: true, ..s },
            Some(k) => if s.backstep && s.entrar.len() == 0 {
                JState { failed: true, ..s }
            } else {
                JState {
                    nodes: s.nodes.update(
                        k,
                        JEntry {
                            other_param: s.nodes[k].other_param.push(s.nodes.len() as usize),
                            ..s.nodes[k]
                        },
                    ).push(blank_entry(s.stringvl)),
                    entrar: if s.backstep {
                        bump_last(s.entrar)
                    } else {
                        s.entrar.push(0)
                    },
                    stringvl: seq![],
                    txtarg: false,
                    numarg: false,
                    arrwr: false,
                    valgiv: true,
                    backstep: false,
                    ..s
                }
            },
        }
    } else {
        s
    }
}

/// What the parser does with one byte, its rules taken in turn.
pub open spec fn step(s: JState, c: u8) -> JState {
    if s.failed {
        s
    } else {
        on_colon(
            on_separator(
                on_in_string(
                    on_numeral(
                        on_quote(
                            on_close_bracket(
                                on_open_bracket(on_close_brace(on_open_brace(s, c), c), c),
                                c,
                            ),
                            c,
                        ),
                        c,
                    ),
                    c,
                ),
                c,
            ),
            c,
        )
    }
}

/// The parser's state after the first `n` bytes of `text`.
pub open spec fn parse_prefix(text: Seq<u8>, n: nat) -> JState
    decreases n,
{
    if n == 0 {
        initial_state()
    } else {
        step(parse_prefix(text, (n - 1) as nat), text[n - 1])
    }
}

/// The parser's state at the end of `text`.
pub open spec fn parsed(text: Seq<u8>) -> JState {
    parse_prefix(text, text.len())
}

/// Whether the whole text is read without a path that leads nowhere.
pub open spec fn json_ok(text: Seq<u8>) -> bool {
    !parsed(text).failed
}

/// Finds the node that the first `upto` steps of `path` lead to from the root.
fn find_node_in(nodes: &Vec<JsonNode>, path: &Vec<usize>, upto: usize) -> (r: Option<usize>)
    requires
        links_ok(entries(nodes@)),
        upto <= path@.len(),
    ensures
        match r {
            Some(k) => node_at(entries(nodes@), path@.take(upto as int)) == Some(k as int)
                && k < nodes@.len(),
            None => node_at(entries(nodes@), path@.take(upto as int)) is None,
        },
{
    let ghost es = entries(nodes@);
    let ghost p = path@.take(upto as int);
    let mut cur: usize = 0;
    let mut i: usize = 0;
    assert(p.subrange(0, p.len() as int) =~= p);
    while i < upto
        invariant
            es == entries(nodes@),
            links_ok(es),
            p == path@.take(upto as int),
            upto <= path@.len(),
            i <= upto,
            cur < nodes@.len(),
            node_at(es, p) == node_from(es, cur as int, p.subrange(i as int, p.len() as int)),
        decreases upto - i,
    {
        let ghost rest = p.subrange(i as int, p.len() as int);
        assert(rest[0] == path@[i as int]);
        assert(rest.drop_first() =~= p.subrange(i + 1, p.len() as int));
        let step = path[i];
        assert(es[cur as int] == nodes@[cur as int]@);
        if step >= nodes[cur].other_param.len() {
            return None;
        }
        let next = nodes[cur].other_param[step];
        assert(es[cur as int].other_param[step as int] == next);
        cur = next;
        i += 1;
    }
    assert(p.subrange(i as int, p.len() as int) =~= seq![]);
    Some(cur)
}

/// The parser's working state.
struct Reader {
    nodes: Vec<JsonNode>,
    numerals: Vec<Vec<u8>>,
    stringvl: Vec<u8>,
    stringvlar: Vec<Vec<u8>>,
    numvlar: Vec<Vec<u8>>,
    entrar: Vec<usize>,
    brakeop: bool,
    valgiv: bool,
    txtarg: bool,
    numarg: bool,
    arrwr: bool,
    backstep: bool,
    strrdst: bool,
}

impl View for Reader {
    type V = JState;

    closed spec fn view(&self) -> JState {
        JState {
            nodes: entries(self.nodes@),
            numerals: texts(self.numerals@),
            stringvl: self.stringvl@,
            stringvlar: texts(self.stringvlar@),
            numvlar: texts(self.numvlar@),
            entrar: self.entrar@,
            brakeop: self.brakeop,
            valgiv: self.valgiv,
            txtarg: self.txtarg,
            numarg: self.numarg,
            arrwr: self.arrwr,
            backstep: self.backstep,
            strrdst: self.strrdst,
            failed: false,
        }
    }
}

fn blank_node(name: Vec<u8>) -> (r: JsonNode)
    ensures
        r@ == blank_entry(name@),
{
    let r = JsonNode {
        name: name,
        strval: Vec::new(),
        numeral: None,
        strvalar: Vec::new(),
        numeral_valar: Vec::new(),
        other_param: Vec::new(),
    };
    assert(texts(r.strvalar@) =~= seq![]);
    assert(texts(r.numeral_valar@) =~= seq![]);
    r
}

pub(crate) fn copy_bytes(v: &Vec<u8>) -> (r: Vec<u8>)
    ensures
        r@ == v@,
{
    let mut out: Vec<u8> = Vec::new();
    let mut i: usize = 0;
    while i < v.len()
        invariant
            i <= v@.len(),
            out@ == v@.take(i as int),
        decreases v@.len() - i,
    {
        out.push(v[i]);
        i += 1;
        assert(out@ =~= v@.take(i as int));
    }
    assert(v@.take(i as int) =~= v@);
    out
}

pub(crate) proof fn lemma_texts_push(v: Seq<Vec<u8>>, x: Vec<u8>)
    ensures
        texts(v.push(x)) == texts(v).push(x@),
{
    assert(texts(v.push(x)) =~= texts(v).push(x@));
}

proof fn lemma_entries_update(v: Seq<JsonNode>, k: int, x: JsonNode)
    requires
        0 <= k < v.len(),
    ensures
        entries(v.update(k, x)) == entries(v).update(k, x@),
{
    assert(entries(v.update(k, x)) =~= entries(v).update(k, x@));
}

proof fn lemma_entries_push(v: Seq<JsonNode>, x: JsonNode)
    ensures
        entries(v.push(x)) == entries(v).push(x@),
{
    assert(entries(v.push(x)) =~= entries(v).push(x@));
}

impl Reader {
    fn new() -> (r: Reader)
        ensures
            r@ == initial_state(),
            links_ok(r@.nodes),
    {
        let mut nodes: Vec<JsonNode> = Vec::new();
        nodes.push(blank_node(Vec::new()));
        let r = Reader {
            nodes: nodes,
            numerals: Vec::new(),
            stringvl: Vec::new(),
            stringvlar: Vec::new(),
            numvlar: Vec::new(),
            entrar: Vec::new(),
            brakeop: false,
            valgiv: false,
            txtarg: false,
            numarg: false,
            arrwr: false,
            backstep: false,
            strrdst: false,
        };
        assert(r@.nodes =~= seq![blank_entry(seq![])]);
        assert(r@.numerals =~= seq![]);
        assert(r@.stringvlar =~= seq![]);
        assert(r@.numvlar =~= seq![]);
        assert(r@ == initial_state());
        r
    }

    fn open_brace(&mut self, c: u8)
        ensures
            final(self)@ == on_open_brace(old(self)@, c),
            final(self).nodes@ == old(self).nodes@,
    {
        if c == 123 && self.valgiv {
            self.valgiv = false;
        }
    }

    fn close_brace(&mut self, c: u8)
        requires
            forall|j: int| 0 <= j < old(self).entrar@.len() ==> old(self).entrar@[j] < usize::MAX,
        ensures
            final(self)@ == on_close_brace(old(self)@, c),
            final(self).nodes@ == old(self).nodes@,
    {
        if c == 125 && self.entrar.len() > 1 {
            self.entrar.pop();
            let l = self.entrar.len();
            let v = self.entrar[l - 1];
            self.entrar.set(l - 1, v + 1);
            self.valgiv = false;
        }
    }

    fn open_bracket(&mut self, c: u8)
        ensures
            final(self)@ == on_open_bracket(old(self)@, c),
            final(self).nodes@ == old(self).nodes@,
    {
        if c == 91 && self.valgiv {
            self.arrwr = true;
            self.txtarg = false;
            self.numarg = false;
        }
    }

    fn quote(&mut self, c: u8)
        ensures
            final(self)@ == on_quote(old(self)@, c),
            final(self).nodes@ == old(self).nodes@,
    {
        if c == 34 {
            self.brakeop = !self.brakeop;
            self.txtarg = true;
            self.strrdst = true;
        }
    }

    fn numeral(&mut self, c: u8)
        ensures
            final(self)@ == on_numeral(old(self)@, c),
            final(self).nodes@ == old(self).nodes@,
    {
        if ((48 <= c && c <= 57) || c == 46) && !self.txtarg {
            self.stringvl.push(c);
            self.numarg = true;
            self.strrdst = true;
        }
    }

    fn in_string(&mut self, c: u8)
        ensures
            final(self)@ == on_in_string(old(self)@, c),
            final(self).nodes@ == old(self).nodes@,
    {
        if self.brakeop && c != 34 {
            self.stringvl.push(c);
        }
    }

    fn close_bracket(&mut self, c: u8) -> (ok: bool)
        requires
            links_ok(old(self)@.nodes),
        ensures
            ok == !on_close_bracket(old(self)@, c).failed,
            ok ==> final(self)@ == on_close_bracket(old(self)@, c),
            links_ok(final(self)@.nodes),
    {
        if c == 93 && self.valgiv {
            if self.txtarg || self.numarg {
                let found = find_node_in(&self.nodes, &self.entrar, self.entrar.len());
                assert(self.entrar@.take(self.entrar@.len() as int) =~= self.entrar@);
                match found {
                    None => {
                        return false;
                    },
                    Some(k) => {
                        if self.txtarg {
                            let mut v: Vec<Vec<u8>> = Vec::new();
                            std::mem::swap(&mut v, &mut self.stringvlar);
                            let ghost before = self.nodes@;
                            self.nodes[k].strvalar = v;
                            proof {
                                lemma_entries_update(before, k as int, self.nodes@[k as int]);
                                assert(self.nodes@ == before.update(k as int, self.nodes@[k as int]));
                            }
                        }
                        if self.numarg {
                            let mut v: Vec<Vec<u8>> = Vec::new();
                            std::mem::swap(&mut v, &mut self.numvlar);
                            let ghost before = self.nodes@;
                            self.nodes[k].numeral_valar = v;
                            proof {
                                lemma_entries_update(before, k as int, self.nodes@[k as int]);
                                assert(self.nodes@ == before.update(k as int, self.nodes@[k as int]));
                            }
                        }
                    },
                }
            }
            self.stringvlar = Vec::new();
            self.numvlar = Vec::new();
            self.valgiv = false;
            self.txtarg = false;
            self.numarg = false;
            self.arrwr = false;
            self.backstep = true;
            assert(texts(self.stringvlar@) =~= seq![]);
            assert(texts(self.numvlar@) =~= seq![]);
        }
        true
    }

    fn sep_text(&mut self) -> (ok: bool)
        requires
            links_ok(old(self)@.nodes),
        ensures
            ok == !sep_text(old(self)@).failed,
            ok ==> final(self)@ == sep_text(old(self)@),
            links_ok(final(self)@.nodes),
    {
        if self.txtarg && !self.arrwr {
            let found = find_node_in(&self.nodes, &self.entrar, self.entrar.len());
            assert(self.entrar@.take(self.entrar@.len() as int) =~= self.entrar@);
            match found {
                None => {
                    return false;
                },
                Some(k) => {
                    let mut v: Vec<u8> = Vec::new();
                    std::mem::swap(&mut v, &mut self.stringvl);
                    let ghost before = self.nodes@;
                    self.nodes[k].strval = v;
                    proof {
                        lemma_entries_update(before, k as int, self.nodes@[k as int]);
                        assert(self.nodes@ == before.update(k as int, self.nodes@[k as int]));
                    }
                    self.backstep = true;
                    self.valgiv = false;
                    self.txtarg = false;
                },
            }
        }
        true
    }

    fn sep_number(&mut self) -> (ok: bool)
        requires
            links_ok(old(self)@.nodes),
        ensures
            ok == !sep_number(old(self)@).failed,
            ok ==> final(self)@ == sep_number(old(self)@),
            links_ok(final(self)@.nodes),
    {
        if self.numarg && !self.arrwr {
            let found = find_node_in(&self.nodes, &self.entrar, self.entrar.len());
            assert(self.entrar@.take(self.entrar@.len() as int) =~= self.entrar@);
            match found {
                None => {
                    return false;
                },
                Some(k) => {
                    let mut v: Vec<u8> = Vec::new();
                    std::mem::swap(&mut v, &mut self.stringvl);
                    let t = copy_bytes(&v);
                    let ghost nums = self.numerals@;
                    self.numerals.push(t);
                    proof {
                        lemma_texts_push(nums, t);
                    }
                    let ghost before = self.nodes@;
                    self.nodes[k].numeral = Some(v);
                    proof {
                        lemma_entries_update(before, k as int, self.nodes@[k as int]);
                        assert(self.nodes@ == before.update(k as int, self.nodes@[k as int]));
                    }
                    self.backstep = true;
                    self.valgiv = false;
                    self.numarg = false;
                },
            }
        }
        true
    }

    fn sep_text_item(&mut self)
        ensures
            final(self)@ == sep_text_item(old(self)@),
            final(self).nodes@ == old(self).nodes@,
    {
        if self.txtarg && self.arrwr && self.strrdst {
            let mut v: Vec<u8> = Vec::new();
            std::mem::swap(&mut v, &mut self.stringvl);
            let ghost items = self.stringvlar@;
            self.stringvlar.push(v);
            proof {
                lemma_texts_push(items, v);
            }
            self.backstep = true;
            self.strrdst = false;
        }
    }

    fn sep_number_item(&mut self)
        ensures
            final(self)@ == sep_number_item(old(self)@),
            final(self).nodes@ == old(self).nodes@,
    {
        if self.numarg && self.arrwr && self.strrdst {
            let mut v: Vec<u8> = Vec::new();
            std::mem::swap(&mut v, &mut self.stringvl);
            let t = copy_bytes(&v);
            let ghost nums = self.numerals@;
            let ghost items = self.numvlar@;
            self.numerals.push(t);
            self.numvlar.push(v);
            proof {
                lemma_texts_push(nums, t);
                lemma_texts_push(items, v);
            }
            self.backstep = true;
            self.strrdst = false;
        }
    }

    fn separator(&mut self, c: u8) -> (ok: bool)
        requires
            links_ok(old(self)@.nodes),
        ensures
            ok == !on_separator(old(self)@, c).failed,
            ok ==> final(self)@ == on_separator(old(self)@, c),
            links_ok(final(self)@.nodes),
    {
        if self.valgiv && (c == 44 || c == 10) {
            if !self.sep_text() {
                return false;
            }
            if !self.sep_number() {
                return false;
            }
            self.sep_text_item();
            self.sep_number_item();
        }
        true
    }

    fn colon(&mut self, c: u8) -> (ok: bool)
        requires
            links_ok(old(self)@.nodes),
            c == 58 ==> forall|j: int|
                0 <= j < old(self).entrar@.len() ==> old(self).entrar@[j] < usize::MAX,
        ensures
            ok == !on_colon(old(self)@, c).failed,
            ok ==> final(self)@ == on_colon(old(self)@, c),
            links_ok(final(self)@.nodes),
    {
        if c == 58 && !self.arrwr && !self.valgiv {
            let l = self.entrar.len();
            let upto = if self.backstep && l > 0 { l - 1 } else { l };
            let found = find_node_in(&self.nodes, &self.entrar, upto);
            assert(self.entrar@.take(l as int) =~= self.entrar@);
            assert(l > 0 ==> self.entrar@.take(l - 1) =~= self.entrar@.drop_last());
            assert(self.entrar@.take(upto as int) == colon_parent(self@));
            match found {
                None => {
                    return false;
                },
                Some(k) => {
                    if self.backstep && l == 0 {
                        return false;
                    }
                    let ghost s0 = self@;
                    let n = self.nodes.len();
                    let ghost before = self.nodes@;
                    self.nodes[k].other_param.push(n);
                    proof {
                        lemma_entries_update(before, k as int, self.nodes@[k as int]);
                        assert(self.nodes@ == before.update(k as int, self.nodes@[k as int]));
                    }
                    let mut name: Vec<u8> = Vec::new();
                    std::mem::swap(&mut name, &mut self.stringvl);
                    let node = blank_node(name);
                    let ghost mid = self.nodes@;
                    self.nodes.push(node);
                    proof {
                        lemma_entries_push(mid, node);
                    }
                    if self.backstep {
                        let v = self.entrar[l - 1];
                        self.entrar.set(l - 1, v + 1);
                    } else {
                        self.entrar.push(0);
                    }
                    self.txtarg = false;
                    self.numarg = false;
                    self.arrwr = false;
                    self.valgiv = true;
                    self.backstep = false;
                    proof {
                        let es = self@.nodes;
                        assert forall|a: int, b: int|
                            0 <= a < es.len() && 0 <= b < es[a].other_param.len() implies
                            #[trigger] es[a].other_param[b] < es.len() by {
                            if a < n && a != k {
                                assert(es[a] == s0.nodes[a]);
                            } else if a == k {
                                if b < s0.nodes[a].other_param.len() {
                                    assert(es[a].other_param[b] == s0.nodes[a].other_param[b]);
                                }
                            }
                        }
                    }
                },
            }
        }
        true
    }

    fn step(&mut self, c: u8) -> (ok: bool)
        requires
            links_ok(old(self)@.nodes),
            forall|j: int| 0 <= j < old(self).entrar@.len() ==> old(self).entrar@[j] < usize::MAX,
        ensures
            ok == !step(old(self)@, c).failed,
            ok ==> final(self)@ == step(old(self)@, c),
            links_ok(final(self)@.nodes),
    {
        let ghost s0 = self@;
        self.open_brace(c);
        self.close_brace(c);
        self.open_bracket(c);
        if !self.close_bracket(c) {
            return false;
        }
        self.quote(c);
        self.numeral(c);
        self.in_string(c);
        if !self.separator(c) {
            return false;
        }
        assert(c == 58 ==> self.entrar@ == s0.entrar);
        if !self.colon(c) {
            return false;
        }
        true
    }
}

proof fn lemma_step_bound(s: JState, c: u8, b: int)
    requires
        forall|j: int| 0 <= j < s.entrar.len() ==> s.entrar[j] <= b,
        0 <= b,
        b + 1 <= usize::MAX,
    ensures
        forall|j: int| 0 <= j < step(s, c).entrar.len() ==> step(s, c).entrar[j] <= b + 1,
{
    let s1 = on_open_brace(s, c);
    let s2 = on_close_brace(s1, c);
    let s3 = on_open_bracket(s2, c);
    let s4 = on_close_bracket(s3, c);
    let s5 = on_quote(s4, c);
    let s6 = on_numeral(s5, c);
    let s7 = on_in_string(s6, c);
    let s8 = on_separator(s7, c);
    let s9 = on_colon(s8, c);
    assert(s8.entrar == s7.entrar);
    assert(s7.entrar == s3.entrar);
    assert(s3.entrar == s2.entrar);
    if s.failed {
        return;
    }
    assert(step(s, c) == s9);
    if c == 125 {
        assert(s9.entrar == s2.entrar);
        if s.entrar.len() > 1 {
            let e = s.entrar.drop_last();
            assert(forall|j: int| 0 <= j < e.len() ==> e[j] <= b);
            assert(forall|j: int| 0 <= j < bump_last(e).len() ==> bump_last(e)[j] <= b + 1);
        }
    } else {
        assert(s2.entrar == s.entrar);
        assert(forall|j: int| 0 <= j < s8.entrar.len() ==> s8.entrar[j] <= b);
        if s8.entrar.len() > 0 {
            assert(forall|j: int| 0 <= j < bump_last(s8.entrar).len() ==> bump_last(s8.entrar)[j] <= b + 1);
        }
        assert forall|j: int| 0 <= j < s8.entrar.push(0).len() implies s8.entrar.push(0)[j] <= b + 1 by {
            if j < s8.entrar.len() {
                assert(s8.entrar.push(0)[j] == s8.entrar[j]);
            }
        }
    }
}

proof fn lemma_prefix_bound(text: Seq<u8>, n: nat)
    requires
        n <= usize::MAX,
    ensures
        forall|j: int|
            0 <= j < parse_prefix(text, n).entrar.len() ==> parse_prefix(text, n).entrar[j] <= n,
    decreases n,
{
    if n > 0 {
        lemma_prefix_bound(text, (n - 1) as nat);
        lemma_step_bound(parse_prefix(text, (n - 1) as nat), text[n - 1], n - 1);
    }
}

proof fn lemma_failed_stays(text: Seq<u8>, n: nat, m: nat)
    requires
        n <= m,
        parse_prefix(text, n).failed,
    ensures
        parse_prefix(text, m).failed,
    decreases m - n,
{
    if n < m {
        lemma_failed_stays(text, n, (m - 1) as nat);
    }
}

/// Whether the nodes form a tree under the first: every child position names a node that
/// comes after its parent, no node is named twice, and every node but the first is named.
pub open spec fn tree_ok(nodes: Seq<JEntry>) -> bool {
    &&& links_ok(nodes)
    &&& forall|n: int, k: int|
        0 <= n < nodes.len() && 0 <= k < nodes[n].other_param.len()
            ==> n < #[trigger] nodes[n].other_param[k]
    &&& forall|n1: int, k1: int, n2: int, k2: int|
        0 <= n1 < nodes.len() && 0 <= k1 < nodes[n1].other_param.len() && 0 <= n2 < nodes.len()
            && 0 <= k2 < nodes[n2].other_param.len() && #[trigger] nodes[n1].other_param[k1]
            == #[trigger] nodes[n2].other_param[k2] ==> n1 == n2 && k1 == k2
    &&& forall|m: int| 0 < m < nodes.len() ==> #[trigger] has_parent(nodes, m)
}

/// Whether some child position names node `m`.
pub open spec fn has_parent(nodes: Seq<JEntry>, m: int) -> bool {
    exists|n: int, k: int|
        0 <= n < nodes.len() && 0 <= k < nodes[n].other_param.len()
            && #[trigger] nodes[n].other_param[k] == m
}

/// Whether every number text kept in the nodes, or collected for a list, is among the
/// numbers read.
pub open spec fn numerals_cover(s: JState) -> bool {
    &&& forall|n: int|
        0 <= n < s.nodes.len() && (#[trigger] s.nodes[n]).numeral is Some
            ==> s.numerals.contains(s.nodes[n].numeral->0)
    &&& forall|n: int, k: int|
        0 <= n < s.nodes.len() && 0 <= k < s.nodes[n].numeral_valar.len()
            ==> s.numerals.contains(#[trigger] s.nodes[n].numeral_valar[k])
    &&& forall|k: int| 0 <= k < s.numvlar.len() ==> s.numerals.contains(#[trigger] s.numvlar[k])
}

/// An update of a node that leaves its children alone keeps the tree.
proof fn lemma_tree_update(nodes: Seq<JEntry>, k: int, e: JEntry)
    requires
        tree_ok(nodes),
        0 <= k < nodes.len(),
        e.other_param == nodes[k].other_param,
    ensures
        tree_ok(nodes.update(k, e)),
{
    let m = nodes.update(k, e);
    assert forall|n: int| 0 <= n < nodes.len() implies #[trigger] m[n].other_param
        == nodes[n].other_param by {}
    assert forall|x: int| 0 < x < m.len() implies #[trigger] has_parent(m, x) by {
        assert(has_parent(nodes, x));
        let (n, j) = choose|n: int, j: int|
            0 <= n < nodes.len() && 0 <= j < nodes[n].other_param.len()
                && #[trigger] nodes[n].other_param[j] == x;
        assert(m[n].other_param[j] == x);
    }
}

/// Adding a new last node as the last child of node `k` keeps the tree.
proof fn lemma_tree_add_child(nodes: Seq<JEntry>, k: int, name: Seq<u8>)
    requires
        tree_ok(nodes),
        0 <= k < nodes.len(),
        nodes.len() <= usize::MAX,
    ensures
        tree_ok(
            nodes.update(
                k,
                JEntry { other_param: nodes[k].other_param.push(nodes.len() as usize), ..nodes[k] },
            ).push(blank_entry(name)),
        ),
{
    let len = nodes.len() as int;
    let m = nodes.update(
        k,
        JEntry { other_param: nodes[k].other_param.push(nodes.len() as usize), ..nodes[k] },
    ).push(blank_entry(name));
    assert(m.len() == len + 1);
    assert(m[k].other_param == nodes[k].other_param.push(len as usize));
    assert(m[len].other_param == Seq::<usize>::empty());
    assert forall|n: int| 0 <= n < len && n != k implies #[trigger] m[n].other_param
        == nodes[n].other_param by {}
    assert forall|n: int, j: int|
        0 <= n < m.len() && 0 <= j < m[n].other_param.len() implies #[trigger] m[n].other_param[j]
        < m.len() && n < m[n].other_param[j] by {
        if n == k && j == nodes[k].other_param.len() {
        } else {
            assert(m[n].other_param[j] == nodes[n].other_param[j]);
        }
    }
    assert forall|n1: int, k1: int, n2: int, k2: int|
        0 <= n1 < m.len() && 0 <= k1 < m[n1].other_param.len() && 0 <= n2 < m.len() && 0 <= k2
            < m[n2].other_param.len() && #[trigger] m[n1].other_param[k1]
            == #[trigger] m[n2].other_param[k2] implies n1 == n2 && k1 == k2 by {
        let new1 = n1 == k && k1 == nodes[k].other_param.len();
        let new2 = n2 == k && k2 == nodes[k].other_param.len();
        if !new1 {
            assert(m[n1].other_param[k1] == nodes[n1].other_param[k1]);
        }
        if !new2 {
            assert(m[n2].other_param[k2] == nodes[n2].other_param[k2]);
        }
    }
    assert forall|x: int| 0 < x < m.len() implies #[trigger] has_parent(m, x) by {
        if x == len {
            assert(m[k].other_param[nodes[k].other_param.len() as int] == x);
        } else {
            assert(has_parent(nodes, x));
            let (n, j) = choose|n: int, j: int|
                0 <= n < nodes.len() && 0 <= j < nodes[n].other_param.len()
                    && #[trigger] nodes[n].other_param[j] == x;
            if n == k {
                assert(m[n].other_param[j] == nodes[n].other_param[j]);
            }
            assert(m[n].other_param[j] == x);
        }
    }
}

proof fn lemma_node_from_valid(nodes: Seq<JEntry>, cur: int, path: Seq<usize>)
    requires
        links_ok(nodes),
        0 <= cur < nodes.len(),
    ensures
        node_from(nodes, cur, path) matches Some(k) ==> 0 <= k < nodes.len(),
    decreases path.len(),
{
    if path.len() > 0 && path[0] < nodes[cur].other_param.len() {
        let next = nodes[cur].other_param[path[0] as int] as int;
        lemma_node_from_valid(nodes, next, path.drop_first());
    }
}

proof fn lemma_contains_push(s: Seq<Seq<u8>>, x: Seq<u8>, y: Seq<u8>)
    requires
        s.contains(y),
    ensures
        s.push(x).contains(y),
        s.push(x).contains(x),
{
    let i = choose|i: int| 0 <= i < s.len() && s[i] == y;
    assert(s.push(x)[i] == y);
    assert(s.push(x)[s.len() as int] == x);
}

proof fn lemma_close_bracket_inv(s: JState, c: u8)
    requires
        tree_ok(s.nodes),
        numerals_cover(s),
    ensures
        tree_ok(on_close_bracket(s, c).nodes),
        numerals_cover(on_close_bracket(s, c)),
        on_close_bracket(s, c).nodes.len() == s.nodes.len(),
{
    let t = on_close_bracket(s, c);
    if c == 93 && s.valgiv && (s.txtarg || s.numarg) {
        lemma_node_from_valid(s.nodes, 0, s.entrar);
        if let Some(k) = node_at(s.nodes, s.entrar) {
            let n1 = if s.txtarg {
                s.nodes.update(k, JEntry { strvalar: s.stringvlar, ..s.nodes[k] })
            } else {
                s.nodes
            };
            if s.txtarg {
                lemma_tree_update(s.nodes, k, JEntry { strvalar: s.stringvlar, ..s.nodes[k] });
            }
            if s.numarg {
                lemma_tree_update(n1, k, JEntry { numeral_valar: s.numvlar, ..n1[k] });
            }
            assert(t.numerals == s.numerals);
            assert forall|n: int| 0 <= n < t.nodes.len() && (#[trigger] t.nodes[n]).numeral is Some
                implies t.numerals.contains(t.nodes[n].numeral->0) by {
                assert(t.nodes[n].numeral == s.nodes[n].numeral);
            }
            assert forall|n: int, j: int|
                0 <= n < t.nodes.len() && 0 <= j < t.nodes[n].numeral_valar.len() implies t.numerals.contains(
                #[trigger] t.nodes[n].numeral_valar[j]) by {
                if n == k && s.numarg {
                    assert(t.nodes[n].numeral_valar[j] == s.numvlar[j]);
                } else {
                    assert(t.nodes[n].numeral_valar == s.nodes[n].numeral_valar);
                }
            }
        }
    }
}

proof fn lemma_sep_inv(s: JState)
    requires
        tree_ok(s.nodes),
        numerals_cover(s),
    ensures
        tree_ok(sep_number_item(sep_text_item(sep_number(sep_text(s)))).nodes),
        numerals_cover(sep_number_item(sep_text_item(sep_number(sep_text(s))))),
        sep_number_item(sep_text_item(sep_number(sep_text(s)))).nodes.len() == s.nodes.len(),
{
    let s1 = sep_text(s);
    if s.txtarg && !s.arrwr {
        lemma_node_from_valid(s.nodes, 0, s.entrar);
        if let Some(k) = node_at(s.nodes, s.entrar) {
            lemma_tree_update(s.nodes, k, JEntry { strval: s.stringvl, ..s.nodes[k] });
            assert forall|n: int| 0 <= n < s1.nodes.len() implies (#[trigger] s1.nodes[n]).numeral
                == s.nodes[n].numeral && s1.nodes[n].numeral_valar == s.nodes[n].numeral_valar by {}
        }
    }
    assert(tree_ok(s1.nodes) && numerals_cover(s1));
    let s2 = sep_number(s1);
    if s1.numarg && !s1.arrwr {
        lemma_node_from_valid(s1.nodes, 0, s1.entrar);
        if let Some(k) = node_at(s1.nodes, s1.entrar) {
            lemma_tree_update(s1.nodes, k, JEntry { numeral: Some(s1.stringvl), ..s1.nodes[k] });
            assert(s2.numerals == s1.numerals.push(s1.stringvl));
            assert forall|n: int| 0 <= n < s2.nodes.len() && (#[trigger] s2.nodes[n]).numeral is Some
                implies s2.numerals.contains(s2.nodes[n].numeral->0) by {
                if n == k {
                    assert(s2.numerals[s1.numerals.len() as int] == s1.stringvl);
                } else {
                    lemma_contains_push(s1.numerals, s1.stringvl, s1.nodes[n].numeral->0);
                }
            }
            assert forall|n: int, j: int|
                0 <= n < s2.nodes.len() && 0 <= j < s2.nodes[n].numeral_valar.len() implies s2.numerals.contains(
                #[trigger] s2.nodes[n].numeral_valar[j]) by {
                assert(s2.nodes[n].numeral_valar == s1.nodes[n].numeral_valar);
                lemma_contains_push(s1.numerals, s1.stringvl, s1.nodes[n].numeral_valar[j]);
            }
            assert forall|j: int| 0 <= j < s2.numvlar.len() implies s2.numerals.contains(
                #[trigger] s2.numvlar[j]) by {
                lemma_contains_push(s1.numerals, s1.stringvl, s1.numvlar[j]);
            }
        }
    }
    assert(tree_ok(s2.nodes) && numerals_cover(s2));
    let s3 = sep_text_item(s2);
    assert(tree_ok(s3.nodes) && numerals_cover(s3));
    let s4 = sep_number_item(s3);
    if s3.numarg && s3.arrwr && s3.strrdst {
        assert forall|n: int| 0 <= n < s4.nodes.len() && (#[trigger] s4.nodes[n]).numeral is Some
            implies s4.numerals.contains(s4.nodes[n].numeral->0) by {
            lemma_contains_push(s3.numerals, s3.stringvl, s3.nodes[n].numeral->0);
        }
        assert forall|n: int, j: int|
            0 <= n < s4.nodes.len() && 0 <= j < s4.nodes[n].numeral_valar.len() implies s4.numerals.contains(
            #[trigger] s4.nodes[n].numeral_valar[j]) by {
            lemma_contains_push(s3.numerals, s3.stringvl, s3.nodes[n].numeral_valar[j]);
        }
        assert forall|j: int| 0 <= j < s4.numvlar.len() implies s4.numerals.contains(
            #[trigger] s4.numvlar[j]) by {
            if j < s3.numvlar.len() {
                assert(s4.numvlar[j] == s3.numvlar[j]);
                lemma_contains_push(s3.numerals, s3.stringvl, s3.numvlar[j]);
            } else {
                assert(s4.numerals[s3.numerals.len() as int] == s3.stringvl);
            }
        }
    }
}

proof fn lemma_colon_inv(s: JState, c: u8)
    requires
        tree_ok(s.nodes),
        numerals_cover(s),
        s.nodes.len() <= usize::MAX,
    ensures
        tree_ok(on_colon(s, c).nodes),
        numerals_cover(on_colon(s, c)),
        on_colon(s, c).nodes.len() <= s.nodes.len() + 1,
{
    let t = on_colon(s, c);
    if c == 58 && !s.arrwr && !s.valgiv {
        lemma_node_from_valid(s.nodes, 0, colon_parent(s));
        if let Some(k) = node_at(s.nodes, colon_parent(s)) {
            if !(s.backstep && s.entrar.len() == 0) {
                lemma_tree_add_child(s.nodes, k, s.stringvl);
                let len = s.nodes.len() as int;
                assert forall|n: int| 0 <= n < t.nodes.len() && (#[trigger] t.nodes[n]).numeral is Some
                    implies t.numerals.contains(t.nodes[n].numeral->0) by {
                    assert(n < len);
                    assert(t.nodes[n].numeral == s.nodes[n].numeral);
                }
                assert forall|n: int, j: int|
                    0 <= n < t.nodes.len() && 0 <= j < t.nodes[n].numeral_valar.len() implies t.numerals.contains(
                    #[trigger] t.nodes[n].numeral_valar[j]) by {
                    assert(n < len);
                    assert(t.nodes[n].numeral_valar == s.nodes[n].numeral_valar);
                }
            }
        }
    }
}

proof fn lemma_step_inv(s: JState, c: u8)
    requires
        tree_ok(s.nodes),
        numerals_cover(s),
        s.nodes.len() <= usize::MAX,
    ensures
        tree_ok(step(s, c).nodes),
        numerals_cover(step(s, c)),
        step(s, c).nodes.len() <= s.nodes.len() + 1,
{
    if !s.failed {
        let s3 = on_open_bracket(on_close_brace(on_open_brace(s, c), c), c);
        assert(s3.nodes == s.nodes && s3.numerals == s.numerals && s3.numvlar == s.numvlar);
        lemma_close_bracket_inv(s3, c);
        let s4 = on_close_bracket(s3, c);
        let s7 = on_in_string(on_numeral(on_quote(s4, c), c), c);
        assert(s7.nodes == s4.nodes && s7.numerals == s4.numerals && s7.numvlar == s4.numvlar);
        if s7.valgiv && (c == 44 || c == 10) {
            lemma_sep_inv(s7);
        }
        let s8 = on_separator(s7, c);
        lemma_colon_inv(s8, c);
    }
}

proof fn lemma_prefix_inv(text: Seq<u8>, n: nat)
    requires
        n <= usize::MAX,
    ensures
        tree_ok(parse_prefix(text, n).nodes),
        numerals_cover(parse_prefix(text, n)),
        parse_prefix(text, n).nodes.len() <= n + 1,
    decreases n,
{
    if n > 0 {
        lemma_prefix_inv(text, (n - 1) as nat);
        lemma_step_inv(parse_prefix(text, (n - 1) as nat), text[n - 1]);
    }
}

/// Reading any text (of a length a slice can have) yields nodes that form a tree under the
/// root, and every number text kept in a node is among the numbers read.
pub proof fn lemma_parsed_tree(text: Seq<u8>)
    requires
        text.len() <= usize::MAX,
    ensures
        tree_ok(parsed(text).nodes),
        forall|n: int|
            0 <= n < parsed(text).nodes.len() && (#[trigger] parsed(text).nodes[n]).numeral is Some
                ==> parsed(text).numerals.contains(parsed(text).nodes[n].numeral->0),
        forall|n: int, k: int|
            0 <= n < parsed(text).nodes.len() && 0 <= k < parsed(text).nodes[n].numeral_valar.len()
                ==> parsed(text).numerals.contains(#[trigger] parsed(text).nodes[n].numeral_valar[k]),
{
    lemma_prefix_inv(text, text.len());
}

impl JsonF {
    /// Reads a document, or `None` where a rule would have to follow a path that leads to
    /// no node (or leave the root behind).
    pub fn try_from_text(text: &[u8]) -> (r: Option<JsonF>)
        ensures
            match r {
                Some(d) => json_ok(text@) && entries(d.nodes@) == parsed(text@).nodes
                    && texts(d.numerals@) == parsed(text@).numerals,
                None => !json_ok(text@),
            },
    {
        let mut rd = Reader::new();
        let n = text.len();
        let mut i: usize = 0;
        while i < n
            invariant
                n == text@.len(),
                i <= n,
                rd@ == parse_prefix(text@, i as nat),
                links_ok(rd@.nodes),
            decreases n - i,
        {
            proof {
                lemma_prefix_bound(text@, i as nat);
            }
            let c = text[i];
            if !rd.step(c) {
                proof {
                    assert(parse_prefix(text@, (i + 1) as nat) == step(parse_prefix(text@, i as nat), text@[i as int]));
                    lemma_failed_stays(text@, (i + 1) as nat, n as nat);
                }
                return None;
            }
            i += 1;
        }
        Some(JsonF { nodes: rd.nodes, numerals: rd.numerals })
    }

    /// Reads a document whose reading never needs a node that is not there.
    pub fn from_text(text: &[u8]) -> (r: JsonF)
        requires
            json_ok(text@),
        ensures
            entries(r.nodes@) == parsed(text@).nodes,
            texts(r.numerals@) == parsed(text@).numerals,
    {
        match JsonF::try_from_text(text) {
            Some(d) => d,
            None => {
                assert(false);
                JsonF { nodes: Vec::new(), numerals: Vec::new() }
            },
        }
    }

    /// The node that a path leads to from the root, or `None` where a step names no child.
    pub fn find_node(&self, path: &Vec<usize>) -> (r: Option<usize>)
        requires
            links_ok(entries(self.nodes@)),
        ensures
            match r {
                Some(k) => node_at(entries(self.nodes@), path@) == Some(k as int),
                None => node_at(entries(self.nodes@), path@) is None,
            },
    {
        assert(path@.take(path@.len() as int) =~= path@);
        find_node_in(&self.nodes, path, path.len())
    }

    /// The node that a path leads to from the root: each step picks a child by its position.
    pub fn get_node(&self, path: &Vec<usize>) -> (r: usize)
        requires
            links_ok(entries(self.nodes@)),
            node_at(entries(self.nodes@), path@) is Some,
        ensures
            node_at(entries(self.nodes@), path@) == Some(r as int),
            r < self.nodes@.len(),
    {
        assert(path@.take(path@.len() as int) =~= path@);
        match find_node_in(&self.nodes, path, path.len()) {
            Some(k) => k,
            None => 0,
        }
    }
}

/// The parser's state after reading `b` from state `s`.
pub open spec fn run(s: JState, b: Seq<u8>) -> JState
    decreases b.len(),
{
    if b.len() == 0 {
        s
    } else {
        step(run(s, b.drop_last()), b.last())
    }
}

/// Whether `t` can stand between the quotes of a list item without any rule but the
/// collecting of string bytes firing: no quote, brace, bracket, colon, comma or line break.
pub open spec fn plain_text(t: Seq<u8>) -> bool {
    forall|i: int|
        0 <= i < t.len() ==> {
            let c = #[trigger] t[i];
            c != 34 && c != 123 && c != 125 && c != 91 && c != 93 && c != 58 && c != 44 && c != 10
        }
}

/// The text of a list's items: each in quotes and followed by a comma.
pub open spec fn quoted_items(ts: Seq<Seq<u8>>) -> Seq<u8>
    decreases ts.len(),
{
    if ts.len() == 0 {
        seq![]
    } else {
        quoted_items(ts.drop_last()) + seq![34u8] + ts.last() + seq![34u8, 44u8]
    }
}

/// Whether the parser is inside a list value, outside any string.
pub open spec fn in_list(s: JState) -> bool {
    !s.failed && s.valgiv && s.arrwr && !s.brakeop
}

/// Reading `a` and then `b` is reading `a + b`.
pub proof fn lemma_run_concat(s: JState, a: Seq<u8>, b: Seq<u8>)
    ensures
        run(s, a + b) == run(run(s, a), b),
    decreases b.len(),
{
    if b.len() == 0 {
        assert(a + b =~= a);
    } else {
        assert((a + b).drop_last() =~= a + b.drop_last());
        assert((a + b).last() == b.last());
        lemma_run_concat(s, a, b.drop_last());
    }
}

/// A list item separator: a comma or line break read inside a list, outside a string,
/// after an item's text, adds exactly the text collected for the item to the end of the
/// item list, keeps all earlier items, and starts the next item's text afresh.
pub proof fn lemma_item_separator(s: JState, c: u8)
    requires
        in_list(s),
        s.txtarg,
        s.strrdst,
        c == 44 || c == 10,
    ensures
        step(s, c).stringvlar == s.stringvlar.push(s.stringvl),
        step(s, c).stringvl == Seq::<u8>::empty(),
        step(s, c).nodes == s.nodes,
        in_list(step(s, c)),
{
}

proof fn lemma_string_bytes(s: JState, t: Seq<u8>)
    requires
        !s.failed,
        s.valgiv,
        s.arrwr,
        s.brakeop,
        s.txtarg,
        s.strrdst,
        plain_text(t),
    ensures
        run(s, t) == (JState { stringvl: s.stringvl + t, ..s }),
    decreases t.len(),
{
    if t.len() == 0 {
        assert(s.stringvl + t =~= s.stringvl);
    } else {
        assert forall|i: int| 0 <= i < t.drop_last().len() implies {
            let c = #[trigger] t.drop_last()[i];
            c != 34 && c != 123 && c != 125 && c != 91 && c != 93 && c != 58 && c != 44 && c != 10
        } by {
            assert(t.drop_last()[i] == t[i]);
        }
        lemma_string_bytes(s, t.drop_last());
        let c = t[t.len() - 1];
        assert(t.last() == c);
        assert((s.stringvl + t.drop_last()).push(c) =~= s.stringvl + t);
        let m = JState { stringvl: s.stringvl + t.drop_last(), ..s };
        assert(step(m, c) == (JState { stringvl: (s.stringvl + t.drop_last()).push(c), ..s }));
    }
}

/// Reading a quoted item `"t"` and a comma inside a list, `t` holding no byte that a rule
/// reacts to, appends the collected text followed by `t` to the item list and leaves the
/// parser inside the list with nothing collected.
pub proof fn lemma_list_item(s: JState, t: Seq<u8>)
    requires
        in_list(s),
        plain_text(t),
    ensures
        run(s, seq![34u8] + t + seq![34u8, 44u8]).stringvlar == s.stringvlar.push(s.stringvl + t),
        run(s, seq![34u8] + t + seq![34u8, 44u8]).stringvl == Seq::<u8>::empty(),
        run(s, seq![34u8] + t + seq![34u8, 44u8]).nodes == s.nodes,
        in_list(run(s, seq![34u8] + t + seq![34u8, 44u8])),
{
    let q = seq![34u8];
    assert(run(s, q) == step(s, 34)) by {
        reveal_with_fuel(run, 2);
        assert(q.drop_last() =~= Seq::<u8>::empty());
    }
    let s1 = step(s, 34);
    assert(s1 == (JState { brakeop: true, txtarg: true, strrdst: true, ..s }));
    lemma_string_bytes(s1, t);
    lemma_run_concat(s, q, t);
    let s2 = run(s1, t);
    let e = seq![34u8, 44u8];
    lemma_run_concat(s, q + t, e);
    assert(run(s2, e) == step(step(s2, 34), 44)) by {
        reveal_with_fuel(run, 3);
        assert(e.drop_last() =~= seq![34u8]);
        assert(e.drop_last().drop_last() =~= Seq::<u8>::empty());
    }
    let s3 = step(s2, 34);
    assert(s3 == (JState { brakeop: false, ..s2 }));
    lemma_item_separator(s3, 44);
}

/// Reading the items `ts`, each quoted and followed by a comma, inside a list with nothing
/// collected yet, adds exactly `ts`, in order, to the item list.
pub proof fn lemma_list_items(s: JState, ts: Seq<Seq<u8>>)
    requires
        in_list(s),
        s.stringvl == Seq::<u8>::empty(),
        forall|k: int| 0 <= k < ts.len() ==> plain_text(#[trigger] ts[k]),
    ensures
        run(s, quoted_items(ts)).stringvlar == s.stringvlar + ts,
        run(s, quoted_items(ts)).stringvl == Seq::<u8>::empty(),
        run(s, quoted_items(ts)).nodes == s.nodes,
        in_list(run(s, quoted_items(ts))),
    decreases ts.len(),
{
    if ts.len() == 0 {
        assert(s.stringvlar + ts =~= s.stringvlar);
    } else {
        let init = ts.drop_last();
        assert forall|k: int| 0 <= k < init.len() implies plain_text(#[trigger] init[k]) by {
            assert(init[k] == ts[k]);
        }
        lemma_list_items(s, init);
        let mid = run(s, quoted_items(init));
        let t = ts.last();
        assert(plain_text(ts[ts.len() - 1]));
        lemma_list_item(mid, t);
        let item = seq![34u8] + t + seq![34u8, 44u8];
        assert(quoted_items(ts) =~= quoted_items(init) + item);
        lemma_run_concat(s, quoted_items(init), item);
        assert(mid.stringvl + t =~= t);
        assert(s.stringvlar + init + seq![t] =~= s.stringvlar + ts);
    }
}

/// `]` closing a list of texts stores the items collected, as they are, as the text list
/// of the node the path leads to, and empties the item list.
pub proof fn lemma_list_close(s: JState, k: int)
    requires
        !s.failed,
        s.valgiv,
        s.txtarg,
        node_at(s.nodes, s.entrar) == Some(k),
        0 <= k < s.nodes.len(),
    ensures
        !step(s, 93).failed,
        step(s, 93).nodes[k].strvalar == s.stringvlar,
        step(s, 93).nodes[k].name == s.nodes[k].name,
        step(s, 93).nodes[k].other_param == s.nodes[k].other_param,
        forall|j: int| 0 <= j < s.nodes.len() && j != k ==> #[trigger] step(s, 93).nodes[j] == s.nodes[j],
        step(s, 93).nodes.len() == s.nodes.len(),
        step(s, 93).stringvlar == Seq::<Seq<u8>>::empty(),
{
}

/// The state after the first `n` bytes of a text is the state reached by reading them
/// from the start, so the laws about `run` hold of what `try_from_text` reads.
pub proof fn lemma_prefix_is_run(text: Seq<u8>, n: nat)
    requires
        n <= text.len(),
    ensures
        parse_prefix(text, n) == run(initial_state(), text.take(n as int)),
    decreases n,
{
    if n == 0 {
        assert(text.take(0) =~= Seq::<u8>::empty());
    } else {
        lemma_prefix_is_run(text, (n - 1) as nat);
        assert(text.take(n as int).drop_last() =~= text.take(n - 1));
        assert(text.take(n as int).last() == text[n - 1]);
    }
}

} // verus!
