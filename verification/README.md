# harpocrates-registry lineage

A verified lineage graph over registered evidence, with the Soroban contract
shell around it.

- `src/digest.rs`: 32-byte digests and the comparisons the graph needs.
- `src/lineage.rs`: the caps, the refusal reasons, and the lineage record.
- `src/model.rs`: the abstract registry (`RegistryView`), the order in which an
  edge is checked (`lineage_refusal`), what recording does (`with_source`,
  `with_lineage`), the invariant (`consistent`) and the laws proved over it.
- `src/registry.rs`: `LineageRegistry`, whose operations are proved against
  the model.
- `app/lib.rs`: the contract: storage, authorisation and host values.
- `tests/`: the registry's scenarios on concrete values.
