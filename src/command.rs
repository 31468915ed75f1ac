//! Commands: what an array frame asks of the server, and the frames that
//! carry them.

use vstd::prelude::*;
use vstd::string::*;
use vstd::utf8::*;
use bytes::Bytes;
use crate::buf::{bytes_as_slice, bytes_copy_from_slice, bytes_view, str_from_utf8};
use crate::frame::{Frame, FrameModel, views};

verus! {

broadcast use vstd::utf8::group_utf8_lib;

/// What `str::to_lowercase` makes of a text.
pub uninterp spec fn lower_of(s: Seq<char>) -> Seq<char>;

/// Relies on `str::to_lowercase`: the lowercase form of a text, which
/// depends on its characters alone.
#[verifier::external_body]
fn to_lowercase(s: &str) -> (r: String)
    ensures
        r@ == lower_of(s@),
{
    s.to_lowercase()
}

/// Why a frame is not a command.
#[derive(Clone, Copy, Debug, PartialEq, Eq, Structural)]
pub enum CommandParseError {
    /// The array ends before the command's arguments do.
    UnexpectedEOF,
    /// A command must be an array.
    ArgNotArray,
    /// An argument that must be text is neither text nor binary.
    ArgNotText,
    /// An argument that must be bytes is neither binary nor text.
    ArgNotBinary,
    /// The array goes on after the command's last argument.
    UnexpectedFrame,
    /// The name is not that of a command.
    UnknownCommand,
    /// Binary data given as text is not well-formed UTF-8.
    InvalidUtf8,
}

/// A request to the server.
#[derive(Debug)]
pub enum Command {
    Put(Put),
    Get(Get),
    Echo(Echo),
}

/// Sets `key` to `value`, replacing what it held; sent as `set`.
#[derive(Debug)]
pub struct Put {
    pub key: String,
    pub value: Bytes,
}

/// Asks for the value of `key`; an absent key is no error.
#[derive(Debug)]
pub struct Get {
    pub key: String,
}

/// Asks for `echo` back.
#[derive(Debug)]
pub struct Echo {
    pub echo: String,
}

/// A command's content.
pub enum CommandModel {
    Put { key: Seq<char>, value: Seq<u8> },
    Get { key: Seq<char> },
    Echo { echo: Seq<char> },
}

impl View for Command {
    type V = CommandModel;

    open spec fn view(&self) -> CommandModel {
        match self {
            Command::Put(s) => CommandModel::Put { key: s.key@, value: bytes_view(s.value) },
            Command::Get(g) => CommandModel::Get { key: g.key@ },
            Command::Echo(e) => CommandModel::Echo { echo: e.echo@ },
        }
    }
}

/// An argument read as text: text as it is, or binary data that is UTF-8.
pub open spec fn string_arg(f: FrameModel) -> Result<Seq<char>, CommandParseError> {
    match f {
        FrameModel::Text(s) => Ok(s),
        FrameModel::Binary(b) => if valid_utf8(b) {
            Ok(decode_utf8(b))
        } else {
            Err(CommandParseError::InvalidUtf8)
        },
        _ => Err(CommandParseError::ArgNotText),
    }
}

/// An argument read as bytes: binary data as it is, or the UTF-8 of text.
pub open spec fn bytes_arg(f: FrameModel) -> Result<Seq<u8>, CommandParseError> {
    match f {
        FrameModel::Binary(b) => Ok(b),
        FrameModel::Text(s) => Ok(encode_utf8(s)),
        _ => Err(CommandParseError::ArgNotBinary),
    }
}

/// One text argument, which `make` wraps; one element read.
pub open spec fn one_text_arg(args: Seq<FrameModel>, make: spec_fn(Seq<char>) -> CommandModel) -> Result<
    (CommandModel, int),
    CommandParseError,
> {
    if args.len() == 0 {
        Err(CommandParseError::UnexpectedEOF)
    } else {
        match string_arg(args[0]) {
            Err(e) => Err(e),
            Ok(k) => Ok((make(k), 1)),
        }
    }
}

/// The arguments of the command called `name` (in lowercase), read from
/// the front of `args`: the command and how many elements it took.
pub open spec fn parse_args(name: Seq<char>, args: Seq<FrameModel>) -> Result<(CommandModel, int), CommandParseError> {
    if name == "get"@ {
        one_text_arg(args, |k: Seq<char>| CommandModel::Get { key: k })
    } else if name == "set"@ {
        if args.len() == 0 {
            Err(CommandParseError::UnexpectedEOF)
        } else {
            match string_arg(args[0]) {
                Err(e) => Err(e),
                Ok(k) => if args.len() == 1 {
                    Err(CommandParseError::UnexpectedEOF)
                } else {
                    match bytes_arg(args[1]) {
                        Err(e) => Err(e),
                        Ok(v) => Ok((CommandModel::Put { key: k, value: v }, 2)),
                    }
                },
            }
        }
    } else if name == "echo"@ {
        one_text_arg(args, |k: Seq<char>| CommandModel::Echo { echo: k })
    } else {
        Err(CommandParseError::UnknownCommand)
    }
}

/// The command that `name` (in lowercase) and exactly the arguments `args`
/// make: each argument is read in turn, and none may be left over.
pub open spec fn command_of(name: Seq<char>, args: Seq<FrameModel>) -> Result<CommandModel, CommandParseError> {
    match parse_args(name, args) {
        Err(e) => Err(e),
        Ok((c, n)) => if args.len() > n {
            Err(CommandParseError::UnexpectedFrame)
        } else {
            Ok(c)
        },
    }
}

/// The command that a frame carries: an array whose first element names the
/// command, in any case, and whose other elements are its arguments.
pub open spec fn command_from(f: FrameModel) -> Result<CommandModel, CommandParseError> {
    match f {
        FrameModel::Array(items) => if items.len() == 0 {
            Err(CommandParseError::UnexpectedEOF)
        } else {
            match string_arg(items[0]) {
                Err(e) => Err(e),
                Ok(name) => command_of(lower_of(name), items.skip(1)),
            }
        },
        _ => Err(CommandParseError::ArgNotArray),
    }
}

/// Reads the elements of an array frame one at a time.
pub struct CommandParser {
    tokens: Vec<Frame>,
}

impl CommandParser {
    /// The elements not yet read, in order.
    pub closed spec fn remaining(&self) -> Seq<FrameModel> {
        views(self.tokens@).reverse()
    }

    /// A parser over the elements of an array; fails with `ArgNotArray`
    /// for any other frame.
    pub fn new(frame: Frame) -> (r: Result<CommandParser, CommandParseError>)
        ensures
            match frame@ {
                FrameModel::Array(items) => r is Ok && r->Ok_0.remaining() == items,
                _ => r == Err::<CommandParser, CommandParseError>(CommandParseError::ArgNotArray),
            },
    {
        let mut array = match frame {
            Frame::Array(array) => array,
            _ => return Err(CommandParseError::ArgNotArray),
        };
        let ghost items = views(array@);
        proof {
            assert(frame@ == FrameModel::Array(items)) by {
                if let FrameModel::Array(its) = frame@ {
                    assert(its =~= items);
                }
            }
        }
        let mut tokens: Vec<Frame> = Vec::new();
        while array.len() > 0
            invariant
                items == views(array@) + views(tokens@).reverse(),
            decreases array@.len(),
        {
            let ghost a = array@;
            let ghost t = tokens@;
            let f = array.pop().unwrap();
            tokens.push(f);
            proof {
                assert(views(a) =~= views(array@).push(f@));
                assert(views(tokens@) =~= views(t).push(f@));
                assert(views(tokens@).reverse() =~= seq![f@] + views(t).reverse());
                assert(items =~= views(array@) + views(tokens@).reverse());
            }
        }
        proof {
            assert(items =~= views(tokens@).reverse());
        }
        Ok(CommandParser { tokens })
    }

    fn next(&mut self) -> (r: Option<Frame>)
        ensures
            old(self).remaining().len() == 0 ==> r is None && final(self).remaining() == old(self).remaining(),
            old(self).remaining().len() > 0 ==> r is Some && r->0@ == old(self).remaining()[0]
                && final(self).remaining() == old(self).remaining().drop_first(),
    {
        let ghost t = self.tokens@;
        let r = self.tokens.pop();
        proof {
            if t.len() > 0 {
                assert(views(t) =~= views(self.tokens@).push(t.last()@));
                assert(views(t).reverse() =~= seq![t.last()@] + views(self.tokens@).reverse());
            }
        }
        r
    }

    /// The next element as text; `None` when none is left.
    pub fn next_string(&mut self) -> (r: Result<Option<String>, CommandParseError>)
        ensures
            old(self).remaining().len() == 0 ==> r is Ok && r->Ok_0 is None
                && final(self).remaining() == old(self).remaining(),
            old(self).remaining().len() > 0 ==> final(self).remaining() == old(self).remaining().drop_first()
                && match string_arg(old(self).remaining()[0]) {
                Ok(s) => r is Ok && r->Ok_0 is Some && r->Ok_0->0@ == s,
                Err(e) => r == Err::<Option<String>, CommandParseError>(e),
            },
    {
        match self.next() {
            Some(frame) => match frame {
                Frame::Text(txt) => Ok(Some(txt)),
                Frame::Binary(binary) => match str_from_utf8(bytes_as_slice(&binary)) {
                    Some(s) => Ok(Some(s.to_owned())),
                    None => Err(CommandParseError::InvalidUtf8),
                },
                _ => Err(CommandParseError::ArgNotText),
            },
            None => Ok(None),
        }
    }

    /// The next element as bytes; `None` when none is left.
    pub fn next_bytes(&mut self) -> (r: Result<Option<Bytes>, CommandParseError>)
        ensures
            old(self).remaining().len() == 0 ==> r is Ok && r->Ok_0 is None
                && final(self).remaining() == old(self).remaining(),
            old(self).remaining().len() > 0 ==> final(self).remaining() == old(self).remaining().drop_first()
                && match bytes_arg(old(self).remaining()[0]) {
                Ok(b) => r is Ok && r->Ok_0 is Some && bytes_view(r->Ok_0->0) == b,
                Err(e) => r == Err::<Option<Bytes>, CommandParseError>(e),
            },
    {
        match self.next() {
            Some(frame) => match frame {
                Frame::Binary(binary) => Ok(Some(binary)),
                Frame::Text(txt) => Ok(Some(bytes_copy_from_slice(txt.as_str().as_bytes()))),
                _ => Err(CommandParseError::ArgNotBinary),
            },
            None => Ok(None),
        }
    }

    /// Succeeds when no element is left; else fails with `UnexpectedFrame`.
    pub fn exhausted(&mut self) -> (r: Result<(), CommandParseError>)
        ensures
            old(self).remaining().len() == 0 ==> r is Ok,
            old(self).remaining().len() > 0 ==> r == Err::<(), CommandParseError>(CommandParseError::UnexpectedFrame),
    {
        match self.next() {
            None => Ok(()),
            Some(_) => Err(CommandParseError::UnexpectedFrame),
        }
    }
}

/// Whether two texts are the same, compared by their UTF-8 bytes.
pub(crate) fn same_text(a: &str, b: &str) -> (r: bool)
    ensures
        r == (a@ == b@),
{
    let x = a.as_bytes();
    let y = b.as_bytes();
    proof {
        if a@ == b@ {
            assert(x@ == y@);
        }
    }
    if x.len() != y.len() {
        return false;
    }
    let mut i: usize = 0;
    while i < x.len()
        invariant
            x@.len() == y@.len(),
            x@ == a.spec_bytes(),
            y@ == b.spec_bytes(),
            i <= x@.len(),
            forall|j: int| 0 <= j < i ==> x@[j] == y@[j],
        decreases x@.len() - i,
    {
        if x[i] != y[i] {
            return false;
        }
        i += 1;
    }
    proof {
        assert(x@ =~= y@);
        assert(decode_utf8(encode_utf8(a@)) == a@);
        assert(decode_utf8(encode_utf8(b@)) == b@);
    }
    true
}


impl Put {
    pub fn new(key: &str, value: Bytes) -> (r: Put)
        ensures
            r.key@ == key@,
            r.value == value,
    {
        Put { key: key.to_owned(), value }
    }

    /// Reads a key and a value.
    pub fn parse_frames(parser: &mut CommandParser) -> (r: Result<Put, CommandParseError>)
        ensures
            match parse_args("set"@, old(parser).remaining()) {
                Ok((c, n)) => r is Ok && c == CommandModel::Put { key: r->Ok_0.key@, value: bytes_view(r->Ok_0.value) }
                    && final(parser).remaining() == old(parser).remaining().skip(n),
                Err(e) => r == Err::<Put, CommandParseError>(e),
            },
    {
        proof {
            lemma_command_names_differ();
        }
        let key = match parser.next_string() {
            Ok(Some(key)) => key,
            Ok(None) => return Err(CommandParseError::UnexpectedEOF),
            Err(e) => return Err(e),
        };
        let value = match parser.next_bytes() {
            Ok(Some(value)) => value,
            Ok(None) => return Err(CommandParseError::UnexpectedEOF),
            Err(e) => return Err(e),
        };
        proof {
            assert(old(parser).remaining().skip(2) =~= old(parser).remaining().drop_first().drop_first());
        }
        Ok(Put { key, value })
    }

    /// The array frame that carries this command.
    pub fn into_frame(self) -> (r: Frame)
        ensures
            r@ == FrameModel::Array(
                seq![
                    FrameModel::Text("set"@),
                    FrameModel::Text(self.key@),
                    FrameModel::Binary(bytes_view(self.value)),
                ],
            ),
    {
        let mut frame: Vec<Frame> = Vec::new();
        frame.push(Frame::Text("set".to_owned()));
        frame.push(Frame::Text(self.key));
        frame.push(Frame::Binary(self.value));
        proof {
            assert(frame@[0]@ == FrameModel::Text("set"@));
            assert(frame@[1]@ == FrameModel::Text(self.key@));
            assert(frame@[2]@ == FrameModel::Binary(bytes_view(self.value)));
        }
        let r = Frame::Array(frame);
        proof {
            if let FrameModel::Array(items) = r@ {
                assert(items =~= seq![
                    FrameModel::Text("set"@),
                    FrameModel::Text(self.key@),
                    FrameModel::Binary(bytes_view(self.value)),
                ]);
            }
        }
        r
    }
}

impl Get {
    pub fn new(key: &str) -> (r: Get)
        ensures
            r.key@ == key@,
    {
        Get { key: key.to_owned() }
    }

    /// Reads a key.
    pub fn parse_frames(parser: &mut CommandParser) -> (r: Result<Get, CommandParseError>)
        ensures
            match parse_args("get"@, old(parser).remaining()) {
                Ok((c, n)) => r is Ok && c == CommandModel::Get { key: r->Ok_0.key@ }
                    && final(parser).remaining() == old(parser).remaining().skip(n),
                Err(e) => r == Err::<Get, CommandParseError>(e),
            },
    {
        proof {
            lemma_command_names_differ();
        }
        let key = match parser.next_string() {
            Ok(Some(key)) => key,
            Ok(None) => return Err(CommandParseError::UnexpectedEOF),
            Err(e) => return Err(e),
        };
        proof {
            assert(old(parser).remaining().skip(1) =~= old(parser).remaining().drop_first());
        }
        Ok(Get { key })
    }

    /// The array frame that carries this command.
    pub fn into_frame(self) -> (r: Frame)
        ensures
            r@ == FrameModel::Array(seq![FrameModel::Text("get"@), FrameModel::Text(self.key@)]),
    {
        let mut frame: Vec<Frame> = Vec::new();
        frame.push(Frame::Text("get".to_owned()));
        frame.push(Frame::Text(self.key));
        proof {
            assert(frame@[0]@ == FrameModel::Text("get"@));
            assert(frame@[1]@ == FrameModel::Text(self.key@));
        }
        let r = Frame::Array(frame);
        proof {
            if let FrameModel::Array(items) = r@ {
                assert(items =~= seq![FrameModel::Text("get"@), FrameModel::Text(self.key@)]);
            }
        }
        r
    }
}

impl Echo {
    pub fn new(echo: &str) -> (r: Echo)
        ensures
            r.echo@ == echo@,
    {
        Echo { echo: echo.to_owned() }
    }

    /// Reads the text to send back.
    pub fn parse_frames(parser: &mut CommandParser) -> (r: Result<Echo, CommandParseError>)
        ensures
            match parse_args("echo"@, old(parser).remaining()) {
                Ok((c, n)) => r is Ok && c == CommandModel::Echo { echo: r->Ok_0.echo@ }
                    && final(parser).remaining() == old(parser).remaining().skip(n),
                Err(e) => r == Err::<Echo, CommandParseError>(e),
            },
    {
        proof {
            lemma_command_names_differ();
        }
        let echo = match parser.next_string() {
            Ok(Some(echo)) => echo,
            Ok(None) => return Err(CommandParseError::UnexpectedEOF),
            Err(e) => return Err(e),
        };
        proof {
            assert(old(parser).remaining().skip(1) =~= old(parser).remaining().drop_first());
        }
        Ok(Echo { echo })
    }

    /// The reply: the same text.
    pub fn apply(self) -> (r: Frame)
        ensures
            r@ == FrameModel::Text(self.echo@),
    {
        Frame::Text(self.echo)
    }

    /// The array frame that carries this command.
    pub fn into_frame(self) -> (r: Frame)
        ensures
            r@ == FrameModel::Array(seq![FrameModel::Text("echo"@), FrameModel::Text(self.echo@)]),
    {
        let mut frame: Vec<Frame> = Vec::new();
        frame.push(Frame::Text("echo".to_owned()));
        frame.push(Frame::Text(self.echo));
        proof {
            assert(frame@[0]@ == FrameModel::Text("echo"@));
            assert(frame@[1]@ == FrameModel::Text(self.echo@));
        }
        let r = Frame::Array(frame);
        proof {
            if let FrameModel::Array(items) = r@ {
                assert(items =~= seq![FrameModel::Text("echo"@), FrameModel::Text(self.echo@)]);
            }
        }
        r
    }
}

impl Command {
    /// The command called `name`, already in lowercase, with its arguments
    /// read from `parser`, which must then be empty.
    pub fn parse_named(name: &str, parser: &mut CommandParser) -> (r: Result<Command, CommandParseError>)
        ensures
            match command_of(name@, old(parser).remaining()) {
                Ok(c) => r is Ok && r->Ok_0@ == c,
                Err(e) => r == Err::<Command, CommandParseError>(e),
            },
    {
        let ghost args = parser.remaining();
        let command = if same_text(name, "get") {
            match Get::parse_frames(parser) {
                Ok(g) => Command::Get(g),
                Err(e) => return Err(e),
            }
        } else if same_text(name, "set") {
            match Put::parse_frames(parser) {
                Ok(p) => Command::Put(p),
                Err(e) => return Err(e),
            }
        } else if same_text(name, "echo") {
            match Echo::parse_frames(parser) {
                Ok(e) => Command::Echo(e),
                Err(e) => return Err(e),
            }
        } else {
            return Err(CommandParseError::UnknownCommand);
        };
        match parser.exhausted() {
            Ok(()) => Ok(command),
            Err(e) => Err(e),
        }
    }

    /// The command that a received frame carries. Its name is matched in
    /// lowercase, so `ECHO` and `echo` are one command.
    pub fn from_frame(frame: Frame) -> (r: Result<Command, CommandParseError>)
        ensures
            match command_from(frame@) {
                Ok(c) => r is Ok && r->Ok_0@ == c,
                Err(e) => r == Err::<Command, CommandParseError>(e),
            },
    {
        let ghost m = frame@;
        let mut parser = match CommandParser::new(frame) {
            Ok(parser) => parser,
            Err(e) => return Err(e),
        };
        let name = match parser.next_string() {
            Ok(Some(name)) => name,
            Ok(None) => return Err(CommandParseError::UnexpectedEOF),
            Err(e) => return Err(e),
        };
        let lowered = to_lowercase(name.as_str());
        proof {
            if let FrameModel::Array(items) = m {
                assert(items.skip(1) =~= items.drop_first());
            }
        }
        Command::parse_named(lowered.as_str(), &mut parser)
    }

    /// The reply to the command, for the commands that have one: an echo
    /// sends its text back. Reading and writing the store is not done here.
    pub fn apply(self) -> (r: Option<Frame>)
        ensures
            match self@ {
                CommandModel::Echo { echo } => r is Some && r->0@ == FrameModel::Text(echo),
                _ => r is None,
            },
    {
        match self {
            Command::Echo(echo) => Some(echo.apply()),
            _ => None,
        }
    }
}


/// The command names are three different words.
proof fn lemma_command_names_differ()
    ensures
        "get"@ != "set"@,
        "get"@ != "echo"@,
        "set"@ != "echo"@,
{
    reveal_strlit("get");
    reveal_strlit("set");
    reveal_strlit("echo");
    assert("get"@[0] != "set"@[0]);
    assert("get"@.len() != "echo"@.len());
    assert("set"@.len() != "echo"@.len());
}


/// An argument that reads both as text and as bytes.
pub open spec fn plain_arg(f: FrameModel) -> bool {
    ||| f is Text
    ||| (f matches FrameModel::Binary(b) && valid_utf8(b))
}

/// The arguments of `set`, when each is plain: fewer than two end too early,
/// more than two leave one over, and exactly two make the command.
pub proof fn lemma_set_arity(args: Seq<FrameModel>)
    requires
        forall|i: int| 0 <= i < args.len() ==> plain_arg(#[trigger] args[i]),
    ensures
        args.len() < 2 ==> command_of("set"@, args) == Err::<CommandModel, CommandParseError>(
            CommandParseError::UnexpectedEOF,
        ),
        args.len() > 2 ==> command_of("set"@, args) == Err::<CommandModel, CommandParseError>(
            CommandParseError::UnexpectedFrame,
        ),
        args.len() == 2 ==> command_of("set"@, args) is Ok,
{
    lemma_command_names_differ();
    if args.len() > 0 {
        assert(plain_arg(args[0]));
    }
    if args.len() > 1 {
        assert(plain_arg(args[1]));
    }
}

/// The frame that `Put::into_frame` makes reads back as the same command,
/// its first element giving the name `set`.
pub proof fn lemma_put_round_trip(key: Seq<char>, value: Seq<u8>)
    ensures
        ({
            let items = seq![FrameModel::Text("set"@), FrameModel::Text(key), FrameModel::Binary(value)];
            &&& string_arg(items[0]) == Ok::<Seq<char>, CommandParseError>("set"@)
            &&& command_from(FrameModel::Array(items)) == command_of(lower_of("set"@), items.skip(1))
            &&& command_of("set"@, items.skip(1)) == Ok::<CommandModel, CommandParseError>(
                CommandModel::Put { key, value },
            )
        }),
{
    lemma_command_names_differ();
    let items = seq![FrameModel::Text("set"@), FrameModel::Text(key), FrameModel::Binary(value)];
    let args = items.skip(1);
    assert(args =~= seq![FrameModel::Text(key), FrameModel::Binary(value)]);
}

} // verus!
