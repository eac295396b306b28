# bitfield

Bitfield-like structs over a byte array, verified with Verus.

A declaration such as

```text
pub IpV4Header,
    version: 4,
    ihl: 4,
    total_length: 16,
    source_address: [8; 4],
```

expands to a struct holding `[u8; N]` (N = the bytes the fields need) and,
for each field, a getter `get_<name>` and a setter `set_<name>`. Fields are
packed with no padding, bytes in network order and bits most significant
first. A field of 1 bit is a `bool`; wider fields take the smallest unsigned
integer type that holds them; `[len; count]` (also written `[len, ..count]`)
declares an array of `count` values. `#[const_new]` makes `new` a `const fn`
and `#[pub_data]` makes the data field public; other attributes are kept on
the struct, and attributes of a field go to its two methods.

Errors in a declaration are reported, each with the byte where it was found,
and reading goes on past them where it can: a length, count or number out of
range or of the wrong kind is replaced by 1, a missing `:`, `;` or `]` is
skipped, and a missing comma ends the list of fields. The declaration as read
is then expanded all the same. An attribute that cannot be read, or a token
that cannot be a name where a name stands, stops the parse with no expansion.

## Layout

- `src/lexer.rs`, `src/parser.rs`: the tokens and the grammar of a declaration.
- `src/field.rs`: field sizes, value types, and the getter and setter plans
  of each field (which bytes, shifts and masks read or write a value).
- `src/plan.rs`: the plans and the code that runs them on data bytes.
- `src/expand.rs`, `src/lib.rs`: laying the fields out and building the
  struct and its methods (`expand_bitfield`).
- `src/misc.rs`, `src/ast.rs`: the items of an expansion and small helpers.
- `src/instance.rs`: a value of an expanded struct, whose methods are called
  by name.
- `src/bits.rs`: the model of bits in a byte string that the contracts use.
- `src/laws.rs`: what holds across the operations: a getter returns what its
  setter wrote (cut to the field's width), a setter leaves every other field
  alone, setters of different fields commute, a setter uses only the low
  bits of its value, the bits after the last field are never written, a
  whole array setter reads back as written and writing back a value just
  read changes nothing, and every declaration read has well-formed sizes.
- `app/main.rs`: a command that prints the Rust source of an expansion.
