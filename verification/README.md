# orisnik

A memory allocator for one thread, verified with Verus.

Requests of up to 256 bytes are served from pages of equal slots, one list of pages for each of
32 slot sizes. Larger requests are served best-fit from a heap of blocks that are merged with
their free neighbours when they are given back; the free blocks are indexed by a red-black tree,
with the one that was freed last tried first. Memory goes back to the system only when the
allocator is purged.

The library does not touch memory. It keeps its records in tables by address, says where each
payload lies, and leaves it to the caller to map pages, to move the bytes of a payload that was
relocated and to clear those of one that is to be zero. The protocol with the system is small: a
request that lacks memory answers with nothing and notes how many bytes it wants
(`take_wanted`); the caller maps them, hands the mapping over (`grant`) and asks again; what a
purge gives back is listed by `take_released`.

Addresses and sizes are 64-bit numbers.

## Layout

`src/` is the library.

- `align`, `tag`, `table`, `list`: rounding, links that carry flags, records by address, and
  the circular list.
- `rbtree`, with `rbshape` and `rbcolour`: the red-black tree with chains of equal keys. The
  view of a tree is its groups of equal keys in order; the other two hold the proofs about its
  links and colours.
- `os`: the mappings that the allocator was given.
- `page`, `bucket`, with `bucket_model`: the small-block path.
- `block`, `heap`, `tree`, with `tree_model`, `tree_steps`, `tree_laws` and `tree_purge`: the
  large-block path.
- `orisnik`, with `orisnik_model`, `orisnik_laws`, `orisnik_account` and `orisnik_retry`: the
  whole allocator.
- `capi`, `global_alloc`, `allocator_trait`: the same for C callers, for a program's global
  allocator and for containers.

Every operation is specified as an exact step of a mathematical state (`TreeView`,
`BucketsView`, `OrisnikView`), and what callers rely on is proved of those steps: that payloads
in use have no byte in common, are as large and as aligned as asked for, keep their contents
when they move and stay as they are when others come and go, and that a purge gives back
everything that is not in use. These are the functions named `law_...`.

`app/` puts the library on real memory: it maps pages, moves bytes, and offers the C symbols and
a `GlobalAlloc`.
